//! The e-graph that every extractor reads: nodes, classes and roots, all
//! referred to by dense indices.

use vstd::prelude::*;

verus! {

/// Index of a class in [`EGraph::classes`].
pub type ClassId = usize;

/// Index of a node in [`EGraph::nodes`].
pub type NodeId = usize;

/// A cost in whole units. Sums saturate at [`INFINITY`].
pub type Cost = u64;

/// The cost of what cannot be built, or is not known yet.
pub const INFINITY: Cost = 0xffff_ffff_ffff_ffff;

/// One representation of a value: an operator applied to child nodes.
///
/// A child names a node; what the parent depends on is the class that the
/// child node belongs to.
pub struct Node {
    pub op: String,
    pub children: Vec<NodeId>,
    pub eclass: ClassId,
    pub cost: Cost,
}

/// An equivalence class: the nodes that all stand for the same value.
pub struct Class {
    pub id: ClassId,
    pub nodes: Vec<NodeId>,
}

/// A saturated e-graph.
pub struct EGraph {
    pub nodes: Vec<Node>,
    pub classes: Vec<Class>,
    pub root_eclasses: Vec<ClassId>,
}

impl Node {
    /// A leaf has no children.
    pub fn is_leaf(&self) -> (leaf: bool)
        ensures
            leaf == (self.children@.len() == 0),
    {
        self.children.len() == 0
    }
}

impl EGraph {
    /// The class that child `k` of node `n` belongs to.
    pub open spec fn child_class(&self, n: int, k: int) -> ClassId {
        self.nodes@[self.nodes@[n].children@[k] as int].eclass
    }

    /// Node `n` names an existing class and existing children.
    pub open spec fn node_ok(&self, n: int) -> bool {
        &&& self.nodes@[n].eclass < self.classes@.len()
        &&& forall|k: int|
            0 <= k < self.nodes@[n].children@.len() ==> #[trigger] self.nodes@[n].children@[k]
                < self.nodes@.len()
    }

    /// Entry `j` of class `c` names an existing node that belongs to `c`.
    pub open spec fn member_ok(&self, c: int, j: int) -> bool {
        &&& self.classes@[c].nodes@[j] < self.nodes@.len()
        &&& self.nodes@[self.classes@[c].nodes@[j] as int].eclass == c
    }

    /// Class `c` is stored under its own id, is not empty, and lists only
    /// its own nodes.
    pub open spec fn class_ok(&self, c: int) -> bool {
        &&& self.classes@[c].id == c
        &&& self.classes@[c].nodes@.len() > 0
        &&& forall|j: int| 0 <= j < self.classes@[c].nodes@.len() ==> #[trigger] self.member_ok(c, j)
    }

    /// Every index in the graph refers to something that exists, and every
    /// class has at least one node.
    pub open spec fn well_formed(&self) -> bool {
        &&& self.nodes@.len() <= usize::MAX
        &&& self.classes@.len() <= usize::MAX
        &&& forall|n: int| 0 <= n < self.nodes@.len() ==> #[trigger] self.node_ok(n)
        &&& forall|c: int| 0 <= c < self.classes@.len() ==> #[trigger] self.class_ok(c)
        &&& forall|r: int|
            0 <= r < self.root_eclasses@.len() ==> #[trigger] self.root_eclasses@[r]
                < self.classes@.len()
    }

    /// An e-graph without nodes, classes or roots.
    pub fn new() -> (g: EGraph)
        ensures
            g.nodes@.len() == 0,
            g.classes@.len() == 0,
            g.root_eclasses@.len() == 0,
            g.well_formed(),
    {
        EGraph { nodes: Vec::new(), classes: Vec::new(), root_eclasses: Vec::new() }
    }

    /// The class of node `node_id`.
    pub fn nid_to_cid(&self, node_id: NodeId) -> (cid: ClassId)
        requires
            node_id < self.nodes@.len(),
        ensures
            cid == self.nodes@[node_id as int].eclass,
    {
        self.nodes[node_id].eclass
    }

    /// The classes, each at the index that is its id.
    pub fn classes(&self) -> (classes: &Vec<Class>)
        ensures
            classes == &self.classes,
    {
        &self.classes
    }
}

impl EGraph {
    /// Whether every index in the graph refers to something that exists,
    /// every class is stored under its own id and lists only its own
    /// nodes, and no class is empty.
    #[verifier::rlimit(60)]
    pub fn is_well_formed(&self) -> (ok: bool)
        ensures
            ok == self.well_formed(),
    {
        let nodes_len: usize = self.nodes.len();
        let classes_len: usize = self.classes.len();
        let mut n: usize = 0;
        while n < nodes_len
            invariant
                n <= nodes_len,
                nodes_len == self.nodes@.len(),
                classes_len == self.classes@.len(),
                forall|m: int| 0 <= m < n ==> #[trigger] self.node_ok(m),
            decreases nodes_len - n,
        {
            let node: &Node = &self.nodes[n];
            if node.eclass >= classes_len {
                assert(!self.node_ok(n as int));
                return false;
            }
            let mut k: usize = 0;
            while k < node.children.len()
                invariant
                    k <= node.children@.len(),
                    n < nodes_len,
                    nodes_len == self.nodes@.len(),
                    node == self.nodes@[n as int],
                    forall|j: int| 0 <= j < k ==> #[trigger] node.children@[j] < self.nodes@.len(),
                decreases node.children@.len() - k,
            {
                if node.children[k] >= nodes_len {
                    assert(!self.node_ok(n as int));
                    return false;
                }
                k += 1;
            }
            assert(self.node_ok(n as int));
            n += 1;
        }
        let mut c: usize = 0;
        while c < classes_len
            invariant
                c <= classes_len,
                nodes_len == self.nodes@.len(),
                classes_len == self.classes@.len(),
                forall|m: int| 0 <= m < nodes_len ==> #[trigger] self.node_ok(m),
                forall|d: int| 0 <= d < c ==> #[trigger] self.class_ok(d),
            decreases classes_len - c,
        {
            let class: &Class = &self.classes[c];
            if class.id != c || class.nodes.len() == 0 {
                assert(!self.class_ok(c as int));
                return false;
            }
            let mut j: usize = 0;
            while j < class.nodes.len()
                invariant
                    j <= class.nodes@.len(),
                    c < classes_len,
                    nodes_len == self.nodes@.len(),
                    classes_len == self.classes@.len(),
                    class == self.classes@[c as int],
                    forall|w: int| 0 <= w < j ==> #[trigger] self.member_ok(c as int, w),
                decreases class.nodes@.len() - j,
            {
                let node_id: NodeId = class.nodes[j];
                if node_id >= nodes_len || self.nodes[node_id].eclass != c {
                    assert(!self.member_ok(c as int, j as int));
                    assert(!self.class_ok(c as int));
                    return false;
                }
                j += 1;
            }
            assert(self.class_ok(c as int));
            c += 1;
        }
        let mut r: usize = 0;
        while r < self.root_eclasses.len()
            invariant
                r <= self.root_eclasses@.len(),
                classes_len == self.classes@.len(),
                forall|q: int|
                    0 <= q < r ==> #[trigger] self.root_eclasses@[q] < self.classes@.len(),
            decreases self.root_eclasses@.len() - r,
        {
            if self.root_eclasses[r] >= classes_len {
                return false;
            }
            r += 1;
        }
        true
    }

    /// Adds `node` to the graph and to its class, and returns its id. The
    /// class of the node is an existing class or the next new one.
    ///
    /// The children of the node may name nodes that are added later; check
    /// the finished graph with [`Self::is_well_formed`].
    #[verifier::rlimit(60)]
    pub fn add_node(&mut self, node: Node) -> (node_id: NodeId)
        requires
            node.eclass <= old(self).classes@.len(),
            forall|c: int| 0 <= c < old(self).classes@.len() ==> #[trigger] old(self).class_ok(c),
        ensures
            node_id == old(self).nodes@.len(),
            final(self).nodes@ == old(self).nodes@.push(node),
            final(self).root_eclasses@ == old(self).root_eclasses@,
            final(self).classes@.len() == if node.eclass == old(self).classes@.len() {
                old(self).classes@.len() + 1
            } else {
                old(self).classes@.len()
            },
            final(self).classes@[node.eclass as int].id == node.eclass,
            final(self).classes@[node.eclass as int].nodes@ == if node.eclass == old(
                self,
            ).classes@.len() {
                seq![node_id]
            } else {
                old(self).classes@[node.eclass as int].nodes@.push(node_id)
            },
            forall|c: int|
                0 <= c < old(self).classes@.len() && c != node.eclass ==> final(self).classes@[c]
                    == old(self).classes@[c],
            forall|c: int| 0 <= c < final(self).classes@.len() ==> #[trigger] final(self).class_ok(c),
    {
        let node_id: NodeId = self.nodes.len();
        let cid: ClassId = node.eclass;
        self.nodes.push(node);
        if cid == self.classes.len() {
            let mut members: Vec<NodeId> = Vec::new();
            members.push(node_id);
            self.classes.push(Class { id: cid, nodes: members });
        } else {
            assert(old(self).class_ok(cid as int));
            add_member(&mut self.classes, cid, node_id);
        }
        proof {
            assert forall|c: int| 0 <= c < self.classes@.len() implies #[trigger] self.class_ok(
                c,
            ) by {
                if c != cid {
                    assert(old(self).class_ok(c));
                    assert forall|j: int| 0 <= j < self.classes@[c].nodes@.len() implies #[trigger] self.member_ok(
                        c,
                        j,
                    ) by {
                        assert(old(self).member_ok(c, j));
                    }
                } else if cid < old(self).classes@.len() {
                    assert(old(self).class_ok(c));
                    assert forall|j: int| 0 <= j < self.classes@[c].nodes@.len() implies #[trigger] self.member_ok(
                        c,
                        j,
                    ) by {
                        if j < old(self).classes@[c].nodes@.len() {
                            assert(old(self).member_ok(c, j));
                        }
                    }
                }
            }
        }
        node_id
    }
}

/// Lists `node_id` as a member of class `cid`.
fn add_member(classes: &mut Vec<Class>, cid: ClassId, node_id: NodeId)
    requires
        cid < old(classes)@.len(),
    ensures
        final(classes)@.len() == old(classes)@.len(),
        final(classes)@[cid as int].id == old(classes)@[cid as int].id,
        final(classes)@[cid as int].nodes@ == old(classes)@[cid as int].nodes@.push(node_id),
        forall|c: int|
            0 <= c < old(classes)@.len() && c != cid ==> final(classes)@[c] == old(classes)@[c],
{
    classes[cid].nodes.push(node_id);
}

} // verus!
