use extraction_gym::cost::{CostFunction, MapGet};
use extraction_gym::extraction_result::ExtractionResult;
use extraction_gym::graph::{Class, EGraph, Node, INFINITY};
use indexmap::IndexMap;
use rustc_hash::FxHashMap;
use std::collections::HashMap;

fn node(op: &str, children: Vec<usize>, eclass: usize, cost: u64) -> Node {
    Node { op: op.to_string(), children, eclass, cost }
}

/// Root R = f(A, B) of cost 1, A = g(C) of cost 2, B = h(C) of cost 3,
/// C a leaf of cost 4. Classes R, A, B, C are 0, 1, 2, 3.
fn diamond() -> EGraph {
    EGraph {
        nodes: vec![
            node("f", vec![1, 2], 0, 1),
            node("g", vec![3], 1, 2),
            node("h", vec![3], 2, 3),
            node("c", vec![], 3, 4),
        ],
        classes: vec![
            Class { id: 0, nodes: vec![0] },
            Class { id: 1, nodes: vec![1] },
            Class { id: 2, nodes: vec![2] },
            Class { id: 3, nodes: vec![3] },
        ],
        root_eclasses: vec![0],
    }
}

fn all_chosen(g: &EGraph) -> ExtractionResult {
    let mut r = ExtractionResult::default();
    for c in 0..g.classes.len() {
        r.choose_node(c, g.classes[c].nodes[0]);
    }
    r
}

#[test]
fn cost_function_names() {
    assert_eq!(CostFunction::from_name("node_sum_cost"), Some(CostFunction::NodeSum));
    assert_eq!(CostFunction::from_name("node_depth_cost"), Some(CostFunction::NodeDepth));
    assert_eq!(CostFunction::from_name("node_sum"), None);
    assert_eq!(CostFunction::from_name(""), None);
}

#[test]
fn node_sum_cost_adds_children() {
    let g = diamond();
    let r = ExtractionResult::default();
    let mut costs: HashMap<usize, u64> = HashMap::new();
    costs.insert(1, 6);
    costs.insert(2, 7);
    assert_eq!(r.node_sum_cost(&g, &g.nodes[0], &costs), 14);
    assert_eq!(r.node_depth_cost(&g, &g.nodes[0], &costs), 8);
    assert_eq!(r.node_cost_by(CostFunction::NodeSum, &g, &g.nodes[0], &costs), 14);
    assert_eq!(r.node_cost_by(CostFunction::NodeDepth, &g, &g.nodes[0], &costs), 8);
}

#[test]
fn leaf_costs_its_own_cost() {
    let g = diamond();
    let r = ExtractionResult::default();
    let costs: HashMap<usize, u64> = HashMap::new();
    assert_eq!(r.node_sum_cost(&g, &g.nodes[3], &costs), 4);
    assert_eq!(r.node_depth_cost(&g, &g.nodes[3], &costs), 4);
}

#[test]
fn unknown_child_is_infinitely_expensive() {
    let g = diamond();
    let r = ExtractionResult::default();
    let mut costs: HashMap<usize, u64> = HashMap::new();
    costs.insert(1, 6);
    assert_eq!(r.node_sum_cost(&g, &g.nodes[0], &costs), INFINITY);
    assert_eq!(r.node_depth_cost(&g, &g.nodes[0], &costs), INFINITY);
}

#[test]
fn sums_saturate_at_infinity() {
    let g = diamond();
    let r = ExtractionResult::default();
    let mut costs: HashMap<usize, u64> = HashMap::new();
    costs.insert(1, u64::MAX - 1);
    costs.insert(2, 5);
    assert_eq!(r.node_sum_cost(&g, &g.nodes[0], &costs), INFINITY);
    assert_eq!(r.node_depth_cost(&g, &g.nodes[0], &costs), INFINITY);
    costs.insert(1, u64::MAX - 7);
    assert_eq!(r.node_sum_cost(&g, &g.nodes[0], &costs), u64::MAX - 1);
}

#[test]
fn map_get_reads_hash_maps_and_index_maps() {
    let mut h: HashMap<usize, u64> = HashMap::new();
    h.insert(3, 9);
    assert_eq!(MapGet::get(&h, &3), Some(&9));
    assert_eq!(MapGet::get(&h, &4), None);
    let mut m: IndexMap<usize, usize> = IndexMap::new();
    m.insert(7, 1);
    m.insert(2, 5);
    m.insert(7, 8);
    assert_eq!(MapGet::get(&m, &7), Some(&8));
    assert_eq!(MapGet::get(&m, &2), Some(&5));
    assert_eq!(MapGet::get(&m, &0), None);
}

#[test]
fn choosing_overwrites_and_keeps_the_order() {
    let mut r = ExtractionResult::default();
    assert_eq!(r.len(), 0);
    assert_eq!(r.get_node(4), None);
    r.choose_node(4, 10);
    r.choose_node(1, 11);
    r.choose_node(4, 12);
    assert_eq!(r.len(), 2);
    assert_eq!(r.get_node(4), Some(12));
    assert_eq!(r.get_node(1), Some(11));
    assert_eq!(r.get_index(0), Some((4, 12)));
    assert_eq!(r.get_index(1), Some((1, 11)));
    assert_eq!(r.get_index(2), None);
    let copy = r.clone();
    r.choose_node(1, 13);
    assert_eq!(copy.get_node(1), Some(11));
    assert_eq!(copy.get_index(0), Some((4, 12)));
}

#[test]
fn dag_cost_counts_shared_class_once() {
    let g = diamond();
    let r = all_chosen(&g);
    assert_eq!(r.dag_cost(&g, &g.root_eclasses), 10);
    assert_eq!(r.tree_cost(&g, &g.root_eclasses), 14);
    assert!(r.dag_cost(&g, &g.root_eclasses) <= r.tree_cost(&g, &g.root_eclasses));
}

#[test]
fn costs_from_several_roots() {
    let g = diamond();
    let r = all_chosen(&g);
    // Roots A and B share C: 2 + 3 + 4 as a DAG, (2 + 4) + (3 + 4) as trees.
    assert_eq!(r.dag_cost(&g, &[1, 2]), 9);
    assert_eq!(r.tree_cost(&g, &[1, 2]), 13);
    // A root named twice counts once in the DAG and twice in the tree.
    assert_eq!(r.dag_cost(&g, &[3, 3]), 4);
    assert_eq!(r.tree_cost(&g, &[3, 3]), 8);
    assert_eq!(r.dag_cost(&g, &[]), 0);
    assert_eq!(r.tree_cost(&g, &[]), 0);
}

#[test]
fn dag_cost_returns_the_reachable_choices() {
    let g = diamond();
    let r = all_chosen(&g);
    let (cost, sub) = r.calculate_dag_cost_with_extraction_result(&g, &[1]);
    assert_eq!(cost, 6);
    assert_eq!(sub.len(), 2);
    assert_eq!(sub.get_node(1), Some(1));
    assert_eq!(sub.get_node(3), Some(3));
    assert_eq!(sub.get_node(0), None);
    assert_eq!(sub.get_node(2), None);
}

#[test]
fn dag_cost_of_a_cycle_counts_each_class_once() {
    let g = EGraph {
        nodes: vec![node("f", vec![1], 0, 3), node("g", vec![0], 1, 5)],
        classes: vec![Class { id: 0, nodes: vec![0] }, Class { id: 1, nodes: vec![1] }],
        root_eclasses: vec![0],
    };
    let r = all_chosen(&g);
    assert_eq!(r.dag_cost(&g, &g.root_eclasses), 8);
}

#[test]
fn tree_cost_saturates() {
    let g = EGraph {
        nodes: vec![node("f", vec![1, 1], 0, 1), node("x", vec![], 1, u64::MAX / 2 + 1)],
        classes: vec![Class { id: 0, nodes: vec![0] }, Class { id: 1, nodes: vec![1] }],
        root_eclasses: vec![0],
    };
    let r = all_chosen(&g);
    assert_eq!(r.tree_cost(&g, &g.root_eclasses), INFINITY);
    assert_eq!(r.dag_cost(&g, &g.root_eclasses), u64::MAX / 2 + 2);
}

#[test]
fn graph_well_formedness_is_checked() {
    let mut g = diamond();
    assert!(g.is_well_formed());
    g.root_eclasses.push(9);
    assert!(!g.is_well_formed());
    let mut g = diamond();
    g.nodes[0].children.push(17);
    assert!(!g.is_well_formed());
    let mut g = diamond();
    g.classes[1].nodes.clear();
    assert!(!g.is_well_formed());
    let mut g = diamond();
    g.classes[1].nodes.push(2);
    assert!(!g.is_well_formed());
    let mut g = diamond();
    g.classes[2].id = 1;
    assert!(!g.is_well_formed());
    let mut g = diamond();
    g.nodes[3].eclass = 4;
    assert!(!g.is_well_formed());
}

#[test]
fn graph_is_built_node_by_node() {
    let mut g = EGraph::new();
    assert!(g.is_well_formed());
    assert_eq!(g.add_node(node("f", vec![1], 0, 1)), 0);
    assert!(!g.is_well_formed());
    assert_eq!(g.add_node(node("x", vec![], 1, 2)), 1);
    assert_eq!(g.add_node(node("g", vec![1], 0, 3)), 2);
    g.root_eclasses.push(0);
    assert!(g.is_well_formed());
    assert_eq!(g.classes().len(), 2);
    assert_eq!(g.classes()[0].nodes, vec![0, 2]);
    assert_eq!(g.classes()[0].id, 0);
    assert_eq!(g.classes()[1].nodes, vec![1]);
    assert_eq!(g.nid_to_cid(2), 0);
    assert!(g.nodes[1].is_leaf());
    assert!(!g.nodes[0].is_leaf());
}

#[test]
fn extracted_graph_holds_one_node_per_choice() {
    let g = diamond();
    let mut r = ExtractionResult::default();
    // The order of the choices is the order of the classes in the
    // extracted graph.
    r.choose_node(3, 3);
    r.choose_node(0, 0);
    r.choose_node(2, 2);
    r.choose_node(1, 1);
    let e = r.get_extracted_egraph(&g);
    assert!(e.is_well_formed());
    assert_eq!(e.nodes.len(), 4);
    assert_eq!(e.classes.len(), 4);
    let ops: Vec<&str> = e.nodes.iter().map(|n| n.op.as_str()).collect();
    assert_eq!(ops, vec!["c", "f", "h", "g"]);
    let costs: Vec<u64> = e.nodes.iter().map(|n| n.cost).collect();
    assert_eq!(costs, vec![4, 1, 3, 2]);
    assert_eq!(e.nodes[1].children, vec![3, 2]);
    assert_eq!(e.nodes[2].children, vec![0]);
    assert_eq!(e.nodes[3].children, vec![0]);
    assert!(e.nodes[0].children.is_empty());
    for i in 0..4 {
        assert_eq!(e.nodes[i].eclass, i);
        assert_eq!(e.classes[i].id, i);
        assert_eq!(e.classes[i].nodes, vec![i]);
    }
    assert_eq!(e.root_eclasses, vec![1]);
}

#[test]
fn extracted_graph_follows_the_choice_of_the_child_class() {
    // Class 0: f with a child that is node 2 of class 1. Class 1 holds
    // nodes 1 and 2; its choice is node 1.
    let g = EGraph {
        nodes: vec![node("f", vec![2], 0, 1), node("a", vec![], 1, 5), node("b", vec![], 1, 7)],
        classes: vec![Class { id: 0, nodes: vec![0] }, Class { id: 1, nodes: vec![1, 2] }],
        root_eclasses: vec![0],
    };
    let mut r = ExtractionResult::default();
    r.choose_node(0, 0);
    r.choose_node(1, 1);
    let e = r.get_extracted_egraph(&g);
    assert_eq!(e.nodes.len(), 2);
    assert_eq!(e.nodes[0].children, vec![1]);
    assert_eq!(e.nodes[1].op, "a");
    assert_eq!(e.nodes[1].cost, 5);
    assert_eq!(r.dag_cost(&g, &g.root_eclasses), e.nodes.iter().map(|n| n.cost).sum::<u64>());
}

#[test]
fn selection_stands_for_a_graph_only_with_all_it_needs() {
    let g = EGraph {
        nodes: vec![node("f", vec![2], 0, 1), node("a", vec![], 1, 5), node("b", vec![], 1, 7)],
        classes: vec![Class { id: 0, nodes: vec![0] }, Class { id: 1, nodes: vec![1, 2] }],
        root_eclasses: vec![0],
    };
    let mut r = ExtractionResult::default();
    assert!(!r.is_self_contained(&g));
    r.choose_node(0, 0);
    // The class of the child of f has no choice.
    assert!(!r.is_self_contained(&g));
    r.choose_node(1, 1);
    assert!(r.is_self_contained(&g));
    // Node 0 is no node of class 1.
    r.choose_node(1, 0);
    assert!(!r.is_self_contained(&g));
    // The root has no choice.
    let mut leaf_only = ExtractionResult::default();
    leaf_only.choose_node(1, 2);
    assert!(!leaf_only.is_self_contained(&g));
    // A node that the graph does not have.
    let mut beyond = ExtractionResult::default();
    beyond.choose_node(0, 0);
    beyond.choose_node(1, 9);
    assert!(!beyond.is_self_contained(&g));
}

#[test]
fn node_costs_read_a_table_with_the_fx_hash() {
    let g = EGraph {
        nodes: vec![node("f", vec![1, 2], 0, 1), node("a", vec![], 1, 5), node("b", vec![], 2, 7)],
        classes: vec![
            Class { id: 0, nodes: vec![0] },
            Class { id: 1, nodes: vec![1] },
            Class { id: 2, nodes: vec![2] },
        ],
        root_eclasses: vec![0],
    };
    let r = ExtractionResult::default();
    let mut costs: FxHashMap<usize, u64> = FxHashMap::default();
    costs.insert(1, 5);
    assert_eq!(r.node_sum_cost(&g, &g.nodes[0], &costs), INFINITY);
    costs.insert(2, 7);
    assert_eq!(r.node_sum_cost(&g, &g.nodes[0], &costs), 13);
    assert_eq!(r.node_depth_cost(&g, &g.nodes[0], &costs), 8);
    assert_eq!(MapGet::get(&costs, &2), Some(&7));
    assert_eq!(MapGet::get(&costs, &0), None);
}
