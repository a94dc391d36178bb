//! The graph that a selection stands for: one node for each class with a
//! choice.

use crate::choices::lemma_entries_get_position;
use crate::extraction_result::ExtractionResult;
use crate::graph::{Class, ClassId, EGraph, Node, NodeId};
use std::collections::HashMap;
use vstd::prelude::*;

verus! {

impl ExtractionResult {
    /// `extracted` is the graph of this selection over `egraph`: class `i`
    /// of `extracted` stands for the class of choice `i`, and holds one
    /// node, which is the chosen node with each child replaced by the node
    /// of the child's class.
    pub open spec fn extracted_as(&self, egraph: &EGraph, extracted: &EGraph) -> bool {
        &&& extracted.nodes@.len() == self.entries().len()
        &&& extracted.classes@.len() == self.entries().len()
        &&& forall|i: int|
            0 <= i < self.entries().len() ==> {
                let chosen = egraph.nodes@[self.entries()[i].1 as int];
                &&& (#[trigger] extracted.classes@[i]).id == i
                &&& extracted.classes@[i].nodes@ == seq![i as NodeId]
                &&& extracted.nodes@[i].eclass == i
                &&& extracted.nodes@[i].op@ == chosen.op@
                &&& extracted.nodes@[i].cost == chosen.cost
                &&& extracted.nodes@[i].children@.len() == chosen.children@.len()
            }
        &&& forall|i: int, k: int|
            0 <= i < self.entries().len() && 0 <= k < extracted.nodes@[i].children@.len() ==> {
                &&& (#[trigger] extracted.nodes@[i].children@[k]) < self.entries().len()
                &&& self.entries()[extracted.nodes@[i].children@[k] as int].0 == egraph.child_class(
                    self.entries()[i].1 as int,
                    k,
                )
            }
        &&& extracted.root_eclasses@.len() == egraph.root_eclasses@.len()
        &&& forall|r: int|
            0 <= r < egraph.root_eclasses@.len() ==> {
                &&& (#[trigger] extracted.root_eclasses@[r]) < self.entries().len()
                &&& self.entries()[extracted.root_eclasses@[r] as int].0 == egraph.root_eclasses@[r]
            }
    }

    /// The choice of class `c` is a node of `c`, and the class of each of
    /// its children has a choice.
    pub open spec fn entry_ok(&self, egraph: &EGraph, c: ClassId) -> bool {
        &&& self.chosen_ok(egraph, c)
        &&& forall|k: int|
            0 <= k < self.arity(egraph, c) ==> self@.contains_key(
                #[trigger] self.dependency(egraph, c, k),
            )
    }

    /// The selection stands for a graph of its own: every class with a
    /// choice has a proper one and depends only on classes with a choice,
    /// and every root of `egraph` has a choice.
    pub open spec fn self_contained(&self, egraph: &EGraph) -> bool {
        &&& self.closed(egraph, self@.dom())
        &&& forall|r: int|
            0 <= r < egraph.root_eclasses@.len() ==> self@.contains_key(
                #[trigger] egraph.root_eclasses@[r],
            )
    }

    /// Whether the selection stands for a graph of its own.
    pub fn is_self_contained(&self, egraph: &EGraph) -> (ok: bool)
        requires
            egraph.well_formed(),
        ensures
            ok == self.self_contained(egraph),
    {
        let len: usize = self.len();
        let mut i: usize = 0;
        while i < len
            invariant
                i <= len,
                len == self.entries().len(),
                egraph.well_formed(),
                forall|j: int| 0 <= j < i ==> self.entry_ok(egraph, (#[trigger] self.entries()[j]).0),
            decreases len - i,
        {
            let (c, n) = self.get_index(i).unwrap();
            assert(self@.dom().contains(c));
            if n >= egraph.nodes.len() || egraph.nodes[n].eclass != c {
                assert(!self.chosen_ok(egraph, c));
                return false;
            }
            let node: &Node = &egraph.nodes[n];
            assert(egraph.node_ok(n as int));
            let mut k: usize = 0;
            while k < node.children.len()
                invariant
                    k <= node.children@.len(),
                    egraph.well_formed(),
                    n < egraph.nodes@.len(),
                    node == egraph.nodes@[n as int],
                    self@.dom().contains(c),
                    self@[c] == n,
                    forall|w: int|
                        0 <= w < k ==> self@.contains_key(#[trigger] self.dependency(egraph, c, w)),
                decreases node.children@.len() - k,
            {
                assert(egraph.node_ok(n as int));
                assert(egraph.nodes@[n as int].children@[k as int] < egraph.nodes@.len());
                let d: ClassId = egraph.nid_to_cid(node.children[k]);
                assert(d == self.dependency(egraph, c, k as int));
                if self.get_node(d).is_none() {
                    assert(!self@.dom().contains(self.dependency(egraph, c, k as int)));
                    return false;
                }
                k += 1;
            }
            assert(self.entry_ok(egraph, self.entries()[i as int].0));
            i += 1;
        }
        let mut r: usize = 0;
        while r < egraph.root_eclasses.len()
            invariant
                r <= egraph.root_eclasses@.len(),
                forall|q: int|
                    0 <= q < r ==> self@.contains_key(#[trigger] egraph.root_eclasses@[q]),
            decreases egraph.root_eclasses@.len() - r,
        {
            if self.get_node(egraph.root_eclasses[r]).is_none() {
                return false;
            }
            r += 1;
        }
        proof {
            assert forall|c: ClassId| #[trigger] self@.dom().contains(c) implies self.entry_ok(
                egraph,
                c,
            ) by {
                lemma_entries_get_position(self.entries(), c);
                let j = choose|j: int|
                    0 <= j < self.entries().len() && (#[trigger] self.entries()[j]).0 == c;
                assert(self.entry_ok(egraph, self.entries()[j].0));
            }
        }
        true
    }

    /// The graph that the selection stands for.
    ///
    /// The selection must stand for a graph of its own, which
    /// [`Self::is_self_contained`] tests: the nodes of the graph are
    /// numbered by the positions of the choices, so a child whose class has
    /// no choice, or a root without one, has no number to be given.
    #[verifier::rlimit(60)]
    pub fn get_extracted_egraph(&self, egraph: &EGraph) -> (extracted: EGraph)
        requires
            egraph.well_formed(),
            self.self_contained(egraph),
        ensures
            self.extracted_as(egraph, &extracted),
            extracted.well_formed(),
    {
        broadcast use vstd::std_specs::hash::group_hash_axioms;

        let len: usize = self.len();
        let mut position: HashMap<ClassId, usize> = HashMap::new();
        let mut i: usize = 0;
        while i < len
            invariant
                i <= len,
                len == self.entries().len(),
                forall|c: ClassId| #[trigger]
                    position@.contains_key(c) ==> position@[c] < i && self.entries()[position@[c] as int].0
                        == c,
                forall|j: int| 0 <= j < i ==> position@.contains_key((#[trigger] self.entries()[j]).0),
            decreases len - i,
        {
            let (c, _) = self.get_index(i).unwrap();
            position.insert(c, i);
            i += 1;
        }
        let mut extracted = EGraph::new();
        let mut i: usize = 0;
        while i < len
            invariant
                i <= len,
                len == self.entries().len(),
                egraph.well_formed(),
                self.closed(egraph, self@.dom()),
                forall|c: ClassId| #[trigger]
                    position@.contains_key(c) ==> position@[c] < len && self.entries()[position@[c] as int].0
                        == c,
                forall|j: int|
                    0 <= j < len ==> position@.contains_key((#[trigger] self.entries()[j]).0),
                extracted.nodes@.len() == i,
                extracted.classes@.len() == i,
                extracted.root_eclasses@.len() == 0,
                forall|w: int|
                    0 <= w < i ==> {
                        let chosen = egraph.nodes@[self.entries()[w].1 as int];
                        &&& (#[trigger] extracted.classes@[w]).id == w
                        &&& extracted.classes@[w].nodes@ == seq![w as NodeId]
                        &&& extracted.nodes@[w].eclass == w
                        &&& extracted.nodes@[w].op@ == chosen.op@
                        &&& extracted.nodes@[w].cost == chosen.cost
                        &&& extracted.nodes@[w].children@.len() == chosen.children@.len()
                    },
                forall|w: int, k: int|
                    0 <= w < i && 0 <= k < extracted.nodes@[w].children@.len() ==> {
                        &&& (#[trigger] extracted.nodes@[w].children@[k]) < len
                        &&& self.entries()[extracted.nodes@[w].children@[k] as int].0
                            == egraph.child_class(self.entries()[w].1 as int, k)
                    },
            decreases len - i,
        {
            let (c, n) = self.get_index(i).unwrap();
            assert(self@.dom().contains(c));
            assert(self.chosen_ok(egraph, c));
            let node: &Node = &egraph.nodes[n];
            assert(egraph.node_ok(n as int));
            let mut children: Vec<NodeId> = Vec::new();
            let mut k: usize = 0;
            while k < node.children.len()
                invariant
                    k <= node.children@.len(),
                    len == self.entries().len(),
                    egraph.well_formed(),
                    self.closed(egraph, self@.dom()),
                    n < egraph.nodes@.len(),
                    node == egraph.nodes@[n as int],
                    self@.dom().contains(c),
                    self@[c] == n,
                    forall|d: ClassId| #[trigger]
                        position@.contains_key(d) ==> position@[d] < len && self.entries()[position@[d] as int].0
                            == d,
                    forall|j: int|
                        0 <= j < len ==> position@.contains_key((#[trigger] self.entries()[j]).0),
                    children@.len() == k,
                    forall|w: int|
                        0 <= w < k ==> {
                            &&& (#[trigger] children@[w]) < len
                            &&& self.entries()[children@[w] as int].0 == egraph.child_class(
                                n as int,
                                w,
                            )
                        },
                decreases node.children@.len() - k,
            {
                assert(egraph.node_ok(n as int));
                assert(egraph.nodes@[n as int].children@[k as int] < egraph.nodes@.len());
                let d: ClassId = egraph.nid_to_cid(node.children[k]);
                proof {
                    assert(d == self.dependency(egraph, c, k as int));
                    assert(self@.dom().contains(d));
                    lemma_entries_get_position(self.entries(), d);
                    let j = choose|j: int|
                        0 <= j < self.entries().len() && (#[trigger] self.entries()[j]).0 == d;
                    assert(position@.contains_key(self.entries()[j].0));
                }
                let at: usize = *position.get(&d).unwrap();
                let ghost before = children@;
                children.push(at);
                proof {
                    assert forall|w: int| 0 <= w < k + 1 implies {
                        &&& (#[trigger] children@[w]) < len
                        &&& self.entries()[children@[w] as int].0 == egraph.child_class(
                            n as int,
                            w,
                        )
                    } by {
                        if w < k {
                            assert(children@[w] == before[w]);
                        }
                    }
                }
                k += 1;
            }
            let ghost nodes_before = extracted.nodes@;
            let ghost classes_before = extracted.classes@;
            extracted.nodes.push(Node { op: node.op.clone(), children, eclass: i, cost: node.cost });
            let mut members: Vec<NodeId> = Vec::new();
            members.push(i);
            extracted.classes.push(Class { id: i, nodes: members });
            proof {
                assert forall|w: int| 0 <= w < i + 1 implies {
                    let chosen = egraph.nodes@[self.entries()[w].1 as int];
                    &&& (#[trigger] extracted.classes@[w]).id == w
                    &&& extracted.classes@[w].nodes@ == seq![w as NodeId]
                    &&& extracted.nodes@[w].eclass == w
                    &&& extracted.nodes@[w].op@ == chosen.op@
                    &&& extracted.nodes@[w].cost == chosen.cost
                    &&& extracted.nodes@[w].children@.len() == chosen.children@.len()
                } by {
                    if w < i {
                        assert(extracted.classes@[w] == classes_before[w]);
                        assert(extracted.nodes@[w] == nodes_before[w]);
                    } else {
                        assert(extracted.classes@[w].nodes@ =~= seq![w as NodeId]);
                    }
                }
                assert forall|w: int, k: int|
                    0 <= w < i + 1 && 0 <= k < extracted.nodes@[w].children@.len() implies {
                    &&& (#[trigger] extracted.nodes@[w].children@[k]) < len
                    &&& self.entries()[extracted.nodes@[w].children@[k] as int].0
                        == egraph.child_class(self.entries()[w].1 as int, k)
                } by {
                    if w < i {
                        assert(extracted.nodes@[w] == nodes_before[w]);
                    }
                }
            }
            i += 1;
        }
        let mut r: usize = 0;
        while r < egraph.root_eclasses.len()
            invariant
                r <= egraph.root_eclasses@.len(),
                len == self.entries().len(),
                forall|q: int|
                    0 <= q < egraph.root_eclasses@.len() ==> self@.contains_key(
                        #[trigger] egraph.root_eclasses@[q],
                    ),
                forall|d: ClassId| #[trigger]
                    position@.contains_key(d) ==> position@[d] < len && self.entries()[position@[d] as int].0
                        == d,
                forall|j: int|
                    0 <= j < len ==> position@.contains_key((#[trigger] self.entries()[j]).0),
                extracted.nodes@.len() == len,
                extracted.classes@.len() == len,
                extracted.root_eclasses@.len() == r,
                forall|q: int|
                    0 <= q < r ==> {
                        &&& (#[trigger] extracted.root_eclasses@[q]) < len
                        &&& self.entries()[extracted.root_eclasses@[q] as int].0
                            == egraph.root_eclasses@[q]
                    },
                forall|w: int|
                    0 <= w < len ==> {
                        let chosen = egraph.nodes@[self.entries()[w].1 as int];
                        &&& (#[trigger] extracted.classes@[w]).id == w
                        &&& extracted.classes@[w].nodes@ == seq![w as NodeId]
                        &&& extracted.nodes@[w].eclass == w
                        &&& extracted.nodes@[w].op@ == chosen.op@
                        &&& extracted.nodes@[w].cost == chosen.cost
                        &&& extracted.nodes@[w].children@.len() == chosen.children@.len()
                    },
                forall|w: int, k: int|
                    0 <= w < len && 0 <= k < extracted.nodes@[w].children@.len() ==> {
                        &&& (#[trigger] extracted.nodes@[w].children@[k]) < len
                        &&& self.entries()[extracted.nodes@[w].children@[k] as int].0
                            == egraph.child_class(self.entries()[w].1 as int, k)
                    },
            decreases egraph.root_eclasses@.len() - r,
        {
            let root: ClassId = egraph.root_eclasses[r];
            proof {
                assert(self@.contains_key(egraph.root_eclasses@[r as int]));
                lemma_entries_get_position(self.entries(), root);
                let j = choose|j: int|
                    0 <= j < self.entries().len() && (#[trigger] self.entries()[j]).0 == root;
                assert(position@.contains_key(self.entries()[j].0));
            }
            let at: usize = *position.get(&root).unwrap();
            let ghost before = extracted.root_eclasses@;
            extracted.root_eclasses.push(at);
            proof {
                assert forall|q: int| 0 <= q < r + 1 implies {
                    &&& (#[trigger] extracted.root_eclasses@[q]) < len
                    &&& self.entries()[extracted.root_eclasses@[q] as int].0
                        == egraph.root_eclasses@[q]
                } by {
                    if q < r {
                        assert(extracted.root_eclasses@[q] == before[q]);
                    }
                }
            }
            r += 1;
        }
        proof {
            assert forall|m: int| 0 <= m < extracted.nodes@.len() implies #[trigger] extracted.node_ok(
                m,
            ) by {
                assert(extracted.classes@[m].id == m);
            }
            assert forall|c: int| 0 <= c < extracted.classes@.len() implies #[trigger] extracted.class_ok(
                c,
            ) by {
                assert(extracted.classes@[c].id == c);
                assert forall|j: int| 0 <= j < extracted.classes@[c].nodes@.len() implies #[trigger] extracted.member_ok(
                    c,
                    j,
                ) by {}
            }
        }
        extracted
    }
}

} // verus!
