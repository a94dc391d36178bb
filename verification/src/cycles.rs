//! Cycle detection: a depth-first walk over the chosen nodes that marks
//! each class as untouched, in progress or done.

use crate::extraction_result::ExtractionResult;
use crate::graph::{ClassId, EGraph, Node};
use crate::status_table::StatusTable;
use vstd::prelude::*;

verus! {

/// How far the walk has got with a class.
#[derive(Clone, Copy, PartialEq, Eq, Structural)]
pub enum Status {
    /// Not reached yet.
    Unvisited,
    /// Reached, and the walk is still below it.
    InProgress,
    /// Reached and left.
    Done,
}

/// The number of classes that the walk has not reached.
pub open spec fn unvisited_count(status: Seq<Status>) -> nat
    decreases status.len(),
{
    if status.len() == 0 {
        0
    } else {
        unvisited_count(status.drop_last()) + if status.last() is Unvisited {
            1nat
        } else {
            0nat
        }
    }
}

/// Marking a class changes the count by that class alone.
pub proof fn lemma_unvisited_count_update(status: Seq<Status>, i: int, mark: Status)
    requires
        0 <= i < status.len(),
    ensures
        unvisited_count(status.update(i, mark)) + (if status[i] is Unvisited {
            1nat
        } else {
            0nat
        }) == unvisited_count(status) + (if mark is Unvisited {
            1nat
        } else {
            0nat
        }),
    decreases status.len(),
{
    let after = status.update(i, mark);
    if i == status.len() - 1 {
        assert(after.drop_last() =~= status.drop_last());
    } else {
        assert(after.drop_last() =~= status.drop_last().update(i, mark));
        lemma_unvisited_count_update(status.drop_last(), i, mark);
    }
}

impl ExtractionResult {
    /// Following the chosen nodes from class `a` down by `n` dependencies
    /// can lead to class `b`.
    pub open spec fn steps(&self, egraph: &EGraph, a: ClassId, b: ClassId, n: nat) -> bool
        decreases n,
    {
        if n == 0 {
            false
        } else {
            self.chosen_ok(egraph, a) && exists|k: int|
                0 <= k < self.arity(egraph, a) && if n == 1 {
                    #[trigger] self.dependency(egraph, a, k) == b
                } else {
                    self.steps(egraph, #[trigger] self.dependency(egraph, a, k), b, (n - 1) as nat)
                }
        }
    }

    /// Class `a` depends on class `b`, directly or through other classes.
    pub open spec fn depends_on(&self, egraph: &EGraph, a: ClassId, b: ClassId) -> bool {
        exists|n: nat| #[trigger] self.steps(egraph, a, b, n)
    }

    /// Class `c` is at fault: it has no choice among its own nodes, or it
    /// depends on itself.
    pub open spec fn offending(&self, egraph: &EGraph, c: ClassId) -> bool {
        !self.chosen_ok(egraph, c) || self.depends_on(egraph, c, c)
    }

    /// A chain of dependencies can be made one longer at its end.
    pub proof fn lemma_steps_extend(
        &self,
        egraph: &EGraph,
        a: ClassId,
        c: ClassId,
        k: int,
        n: nat,
    )
        requires
            self.steps(egraph, a, c, n),
            self.chosen_ok(egraph, c),
            0 <= k < self.arity(egraph, c),
        ensures
            self.steps(egraph, a, self.dependency(egraph, c, k), n + 1),
        decreases n,
    {
        let x = self.dependency(egraph, c, k);
        assert(self.steps(egraph, c, x, 1));
        let w = choose|w: int|
            0 <= w < self.arity(egraph, a) && if n == 1 {
                #[trigger] self.dependency(egraph, a, w) == c
            } else {
                self.steps(egraph, #[trigger] self.dependency(egraph, a, w), c, (n - 1) as nat)
            };
        if n > 1 {
            self.lemma_steps_extend(egraph, self.dependency(egraph, a, w), c, k, (n - 1) as nat);
        }
        assert(self.steps(egraph, self.dependency(egraph, a, w), x, n));
    }

    /// Class `c` is in reach of `roots`: it is a root, or a root depends on
    /// it, directly or through other classes.
    pub open spec fn in_reach(&self, egraph: &EGraph, roots: Seq<ClassId>, c: ClassId) -> bool {
        exists|r: int|
            0 <= r < roots.len() && (c == #[trigger] roots[r] || self.depends_on(
                egraph,
                roots[r],
                c,
            ))
    }

    /// What a class in reach depends on is in reach.
    pub proof fn lemma_in_reach_step(
        &self,
        egraph: &EGraph,
        roots: Seq<ClassId>,
        c: ClassId,
        k: int,
    )
        requires
            self.in_reach(egraph, roots, c),
            self.chosen_ok(egraph, c),
            0 <= k < self.arity(egraph, c),
        ensures
            self.in_reach(egraph, roots, self.dependency(egraph, c, k)),
    {
        let r = choose|r: int|
            0 <= r < roots.len() && (c == #[trigger] roots[r] || self.depends_on(
                egraph,
                roots[r],
                c,
            ));
        let d = self.dependency(egraph, c, k);
        if c == roots[r] {
            assert(self.steps(egraph, roots[r], d, 1));
        } else {
            let n = choose|n: nat| #[trigger] self.steps(egraph, roots[r], c, n);
            self.lemma_steps_extend(egraph, roots[r], c, k, n);
            assert(self.steps(egraph, roots[r], d, n + 1));
        }
        assert(self.depends_on(egraph, roots[r], d));
    }

    /// Every reported class is in reach of `roots`.
    pub open spec fn all_in_reach(
        &self,
        egraph: &EGraph,
        roots: Seq<ClassId>,
        cycles: Seq<ClassId>,
    ) -> bool {
        forall|j: int| 0 <= j < cycles.len() ==> self.in_reach(egraph, roots, #[trigger] cycles[j])
    }

    /// As long as nothing was reported, every class that the walk has left
    /// has a proper choice and depends only on classes that were left
    /// before it.
    pub open spec fn finished_ok(
        &self,
        egraph: &EGraph,
        status: Seq<Status>,
        cycles: Seq<ClassId>,
        order: spec_fn(ClassId) -> nat,
        next: nat,
    ) -> bool {
        cycles.len() == 0 ==> forall|c: ClassId|
            c < status.len() && #[trigger] status[c as int] is Done ==> {
                &&& self.chosen_ok(egraph, c)
                &&& order(c) < next
                &&& forall|k: int|
                    0 <= k < self.arity(egraph, c) ==> {
                        &&& (#[trigger] self.dependency(egraph, c, k)) < status.len()
                        &&& status[self.dependency(egraph, c, k) as int] is Done
                        &&& order(self.dependency(egraph, c, k)) < order(c)
                    }
            }
    }

    /// Walks the classes that the roots depend on and reports what makes
    /// the selection unusable: a class met again while the walk is still
    /// below it (a cycle), and a class without a choice among its own nodes.
    ///
    /// Nothing is reported exactly when the selection is valid from `roots`.
    /// Every reported class is a root or a class that a root depends on.
    #[verifier::rlimit(60)]
    pub fn find_cycles(&self, egraph: &EGraph, roots: &[ClassId]) -> (cycles: Vec<ClassId>)
        requires
            egraph.well_formed(),
            forall|i: int| 0 <= i < roots@.len() ==> roots@[i] < egraph.classes@.len(),
        ensures
            cycles@.len() == 0 <==> self.valid_from(egraph, roots@),
            forall|i: int| 0 <= i < cycles@.len() ==> cycles@[i] < egraph.classes@.len(),
            forall|i: int| 0 <= i < cycles@.len() ==> self.offending(egraph, #[trigger] cycles@[i]),
            self.all_in_reach(egraph, roots@, cycles@),
    {
        let n: usize = egraph.classes.len();
        let mut status: StatusTable = StatusTable::new(n);
        let mut cycles: Vec<ClassId> = Vec::new();
        let ghost valid = self.valid_from(egraph, roots@);
        let ghost (s, rank) = if valid {
            choose|s: Set<ClassId>, rank: spec_fn(ClassId) -> nat|
                self.witnessed_by(egraph, roots@, s, rank)
        } else {
            (Set::empty(), |c: ClassId| 0nat)
        };
        let ghost mut order: spec_fn(ClassId) -> nat = |c: ClassId| 0nat;
        let ghost mut next: nat = 0;
        let mut i: usize = 0;
        while i < roots.len()
            invariant
                i <= roots@.len(),
                n == egraph.classes@.len(),
                egraph.well_formed(),
                forall|j: int| 0 <= j < roots@.len() ==> roots@[j] < egraph.classes@.len(),
                status@.len() == n,
                forall|d: int| 0 <= d < n ==> !(status@[d] is InProgress),
                forall|j: int| 0 <= j < i ==> status@[roots@[j] as int] is Done,
                self.finished_ok(egraph, status@, cycles@, order, next),
                valid ==> cycles@.len() == 0 && self.witnessed_by(egraph, roots@, s, rank),
                forall|j: int| 0 <= j < cycles@.len() ==> cycles@[j] < egraph.classes@.len(),
                forall|j: int|
                    0 <= j < cycles@.len() ==> self.offending(egraph, #[trigger] cycles@[j]),
                self.all_in_reach(egraph, roots@, cycles@),
            decreases roots@.len() - i,
        {
            let root: ClassId = roots[i];
            assert(self.in_reach(egraph, roots@, root)) by {
                assert(root == roots@[i as int]);
            }
            let out = self.cycle_dfs(
                egraph,
                root,
                &mut status,
                &mut cycles,
                Ghost(order),
                Ghost(next),
                Ghost(valid),
                Ghost(s),
                Ghost(rank),
                Ghost(roots@),
            );
            proof {
                order = out.0@;
                next = out.1@;
            }
            i += 1;
        }
        proof {
            if cycles@.len() == 0 {
                let done = Set::new(|c: ClassId| c < n && status@[c as int] is Done);
                assert(self.witnessed_by(egraph, roots@, done, order)) by {
                    assert forall|j: int| 0 <= j < roots@.len() implies done.contains(
                        #[trigger] roots@[j],
                    ) by {}
                    assert forall|c: ClassId| #[trigger] done.contains(c) implies self.chosen_ok(
                        egraph,
                        c,
                    ) by {
                        assert(status@[c as int] is Done);
                    }
                    assert forall|c: ClassId, k: int|
                        done.contains(c) && 0 <= k < self.arity(egraph, c) implies done.contains(
                        #[trigger] self.dependency(egraph, c, k),
                    ) && order(self.dependency(egraph, c, k)) < order(c) by {
                        assert(status@[c as int] is Done);
                    }
                }
            }
        }
        cycles
    }

    /// One step of the walk: enters `class_id`, walks the classes it
    /// depends on, and leaves it.
    #[verifier::rlimit(60)]
    fn cycle_dfs(
        &self,
        egraph: &EGraph,
        class_id: ClassId,
        status: &mut StatusTable,
        cycles: &mut Vec<ClassId>,
        Ghost(order): Ghost<spec_fn(ClassId) -> nat>,
        Ghost(next): Ghost<nat>,
        Ghost(valid): Ghost<bool>,
        Ghost(s): Ghost<Set<ClassId>>,
        Ghost(rank): Ghost<spec_fn(ClassId) -> nat>,
        Ghost(roots): Ghost<Seq<ClassId>>,
    ) -> (out: (Ghost<spec_fn(ClassId) -> nat>, Ghost<nat>))
        requires
            egraph.well_formed(),
            class_id < egraph.classes@.len(),
            self.in_reach(egraph, roots, class_id),
            self.all_in_reach(egraph, roots, old(cycles)@),
            old(status)@.len() == egraph.classes@.len(),
            self.finished_ok(egraph, old(status)@, old(cycles)@, order, next),
            forall|j: int| 0 <= j < old(cycles)@.len() ==> old(cycles)@[j] < egraph.classes@.len(),
            forall|j: int|
                0 <= j < old(cycles)@.len() ==> self.offending(egraph, #[trigger] old(cycles)@[j]),
            forall|d: int|
                0 <= d < old(status)@.len() && (#[trigger] old(status)@[d]) is InProgress
                    ==> self.depends_on(egraph, d as ClassId, class_id),
            valid ==> {
                &&& old(cycles)@.len() == 0
                &&& self.closed(egraph, s)
                &&& self.ranked(egraph, s, rank)
                &&& s.contains(class_id)
                &&& forall|d: int|
                    0 <= d < old(status)@.len() && old(status)@[d] is InProgress ==> rank(d as ClassId)
                        > rank(class_id)
            },
        ensures
            final(status)@.len() == old(status)@.len(),
            forall|d: int|
                0 <= d < old(status)@.len() ==> (old(status)@[d] is InProgress <==> final(status)@[d] is InProgress),
            forall|d: int|
                0 <= d < old(status)@.len() && old(status)@[d] is Done ==> final(status)@[d] is Done,
            !(final(status)@[class_id as int] is Unvisited),
            unvisited_count(final(status)@) <= unvisited_count(old(status)@),
            old(cycles)@.len() <= final(cycles)@.len(),
            old(status)@[class_id as int] is InProgress ==> final(cycles)@.len() > 0,
            valid ==> final(cycles)@.len() == 0,
            self.finished_ok(egraph, final(status)@, final(cycles)@, out.0@, out.1@),
            forall|j: int|
                0 <= j < final(cycles)@.len() ==> final(cycles)@[j] < egraph.classes@.len(),
            forall|j: int|
                0 <= j < final(cycles)@.len() ==> self.offending(
                    egraph,
                    #[trigger] final(cycles)@[j],
                ),
            self.all_in_reach(egraph, roots, final(cycles)@),
        decreases unvisited_count(old(status)@),
    {
        match status.get(class_id) {
            Status::Done => (Ghost(order), Ghost(next)),
            Status::InProgress => {
                let ghost before = cycles@;
                cycles.push(class_id);
                proof {
                    assert(old(status)@[class_id as int] is InProgress);
                    assert(self.depends_on(egraph, class_id, class_id));
                    assert forall|j: int| 0 <= j < cycles@.len() implies self.offending(
                        egraph,
                        #[trigger] cycles@[j],
                    ) by {
                        if j < before.len() {
                            assert(cycles@[j] == before[j]);
                        }
                    }
                    assert forall|j: int| 0 <= j < cycles@.len() implies self.in_reach(
                        egraph,
                        roots,
                        #[trigger] cycles@[j],
                    ) by {
                        if j < before.len() {
                            assert(cycles@[j] == before[j]);
                        }
                    }
                }
                (Ghost(order), Ghost(next))
            },
            Status::Unvisited => {
                proof {
                    lemma_unvisited_count_update(status@, class_id as int, Status::InProgress);
                }
                status.set(class_id, Status::InProgress);
                let chosen = self.get_node(class_id);
                let proper: bool = match chosen {
                    Some(node_id) => node_id < egraph.nodes.len() && egraph.nodes[node_id].eclass
                        == class_id,
                    None => false,
                };
                if !proper {
                    let ghost before = cycles@;
                    cycles.push(class_id);
                    proof {
                        lemma_unvisited_count_update(status@, class_id as int, Status::Done);
                        assert(!self.chosen_ok(egraph, class_id));
                        assert forall|j: int| 0 <= j < cycles@.len() implies self.offending(
                            egraph,
                            #[trigger] cycles@[j],
                        ) by {
                            if j < before.len() {
                                assert(cycles@[j] == before[j]);
                            }
                        }
                        assert forall|j: int| 0 <= j < cycles@.len() implies self.in_reach(
                            egraph,
                            roots,
                            #[trigger] cycles@[j],
                        ) by {
                            if j < before.len() {
                                assert(cycles@[j] == before[j]);
                            }
                        }
                    }
                    status.set(class_id, Status::Done);
                    return (Ghost(order), Ghost(next));
                }
                let node_id = chosen.unwrap();
                let node: &Node = &egraph.nodes[node_id];
                let ghost mut order = order;
                let ghost mut next = next;
                let mut k: usize = 0;
                assert(egraph.node_ok(node_id as int));
                assert forall|j: int| 0 <= j < node.children@.len() implies (#[trigger] self.dependency(
                    egraph,
                    class_id,
                    j,
                )) < status@.len() by {
                    assert(egraph.node_ok(node.children@[j] as int));
                }
                while k < node.children.len()
                    invariant
                        k <= node.children@.len(),
                        egraph.well_formed(),
                        class_id < egraph.classes@.len(),
                        node_id < egraph.nodes@.len(),
                        node == egraph.nodes@[node_id as int],
                        self.chosen_ok(egraph, class_id),
                        self@[class_id] == node_id,
                        status@.len() == egraph.classes@.len(),
                        status@.len() == old(status)@.len(),
                        old(status)@[class_id as int] is Unvisited,
                        status@[class_id as int] is InProgress,
                        forall|d: int|
                            0 <= d < status@.len() && d != class_id ==> (old(status)@[d] is InProgress
                                <==> status@[d] is InProgress),
                        forall|d: int|
                            0 <= d < status@.len() && old(status)@[d] is Done
                                ==> status@[d] is Done,
                        unvisited_count(status@) < unvisited_count(old(status)@),
                        self.finished_ok(egraph, status@, cycles@, order, next),
                        forall|j: int|
                            0 <= j < node.children@.len() ==> (#[trigger] self.dependency(
                                egraph,
                                class_id,
                                j,
                            )) < status@.len(),
                        cycles@.len() == 0 ==> forall|j: int|
                            0 <= j < k ==> status@[#[trigger] self.dependency(
                                egraph,
                                class_id,
                                j,
                            ) as int] is Done,
                        old(cycles)@.len() <= cycles@.len(),
                        forall|j: int| 0 <= j < cycles@.len() ==> cycles@[j] < egraph.classes@.len(),
                        forall|j: int|
                            0 <= j < cycles@.len() ==> self.offending(egraph, #[trigger] cycles@[j]),
                        self.in_reach(egraph, roots, class_id),
                        self.all_in_reach(egraph, roots, cycles@),
                        forall|d: int|
                            0 <= d < old(status)@.len() && (#[trigger] old(status)@[d]) is InProgress
                                ==> self.depends_on(egraph, d as ClassId, class_id),
                        valid ==> {
                            &&& cycles@.len() == 0
                            &&& self.closed(egraph, s)
                            &&& self.ranked(egraph, s, rank)
                            &&& s.contains(class_id)
                            &&& forall|d: int|
                                0 <= d < old(status)@.len() && old(status)@[d] is InProgress
                                    ==> rank(d as ClassId) > rank(class_id)
                        },
                    decreases node.children@.len() - k,
                {
                    assert(egraph.node_ok(node_id as int));
                    assert(egraph.nodes@[node_id as int].children@[k as int] < egraph.nodes@.len());
                    let child_cid = egraph.nid_to_cid(node.children[k]);
                    assert(child_cid == self.dependency(egraph, class_id, k as int));
                    assert(egraph.node_ok(node.children@[k as int] as int));
                    let ghost before = status@;
                    proof {
                        self.lemma_in_reach_step(egraph, roots, class_id, k as int);
                        assert forall|d: int|
                            0 <= d < status@.len() && (#[trigger] status@[d]) is InProgress implies self.depends_on(
                            egraph,
                            d as ClassId,
                            child_cid,
                        ) by {
                            if d == class_id {
                                assert(self.steps(egraph, class_id, child_cid, 1));
                            } else {
                                assert(old(status)@[d] is InProgress);
                                let n = choose|n: nat| #[trigger]
                                    self.steps(egraph, d as ClassId, class_id, n);
                                self.lemma_steps_extend(
                                    egraph,
                                    d as ClassId,
                                    class_id,
                                    k as int,
                                    n,
                                );
                            }
                        }
                    }
                    let out = self.cycle_dfs(
                        egraph,
                        child_cid,
                        status,
                        cycles,
                        Ghost(order),
                        Ghost(next),
                        Ghost(valid),
                        Ghost(s),
                        Ghost(rank),
                        Ghost(roots),
                    );
                    proof {
                        order = out.0@;
                        next = out.1@;
                        if cycles@.len() == 0 {
                            assert forall|j: int| 0 <= j < k + 1 implies status@[#[trigger] self.dependency(
                                egraph,
                                class_id,
                                j,
                            ) as int] is Done by {
                                let d = self.dependency(egraph, class_id, j);
                                if j < k {
                                    assert(before[d as int] is Done);
                                } else {
                                    assert(d == child_cid);
                                }
                            }
                        }
                    }
                    k += 1;
                }
                proof {
                    lemma_unvisited_count_update(status@, class_id as int, Status::Done);
                }
                let ghost before = status@;
                status.set(class_id, Status::Done);
                proof {
                    let order2 = |c: ClassId| if c == class_id { next } else { order(c) };
                    if cycles@.len() == 0 {
                        assert forall|c: ClassId|
                            c < status@.len() && #[trigger] status@[c as int] is Done implies {
                            &&& self.chosen_ok(egraph, c)
                            &&& order2(c) < next + 1
                            &&& forall|j: int|
                                0 <= j < self.arity(egraph, c) ==> {
                                    &&& (#[trigger] self.dependency(egraph, c, j)) < status@.len()
                                    &&& status@[self.dependency(egraph, c, j) as int] is Done
                                    &&& order2(self.dependency(egraph, c, j)) < order2(c)
                                }
                        } by {
                            if c == class_id {
                                assert forall|j: int| 0 <= j < self.arity(egraph, c) implies {
                                    &&& (#[trigger] self.dependency(egraph, c, j)) < status@.len()
                                    &&& status@[self.dependency(egraph, c, j) as int] is Done
                                    &&& order2(self.dependency(egraph, c, j)) < order2(c)
                                } by {
                                    let d = self.dependency(egraph, c, j);
                                    assert(egraph.node_ok(node.children@[j] as int));
                                    assert(before[d as int] is Done);
                                }
                            } else {
                                assert(before[c as int] is Done);
                                assert forall|j: int| 0 <= j < self.arity(egraph, c) implies {
                                    &&& (#[trigger] self.dependency(egraph, c, j)) < status@.len()
                                    &&& status@[self.dependency(egraph, c, j) as int] is Done
                                    &&& order2(self.dependency(egraph, c, j)) < order2(c)
                                } by {
                                    let d = self.dependency(egraph, c, j);
                                    assert(before[d as int] is Done);
                                }
                            }
                        }
                    }
                }
                (Ghost(|c: ClassId| if c == class_id { next } else { order(c) }), Ghost(next + 1))
            },
        }
    }
}

} // verus!
