use extraction_gym::graph::{Class, EGraph, Node};
use extraction_gym::ilp_cbc::{contains_class, CbcExtractor, Formulation, TRUE_LITERAL};
use extraction_gym::linear_model::{Column, Model, Row, RowKind};

fn node(op: &str, children: Vec<usize>, eclass: usize, cost: u64) -> Node {
    Node { op: op.to_string(), children, eclass, cost }
}

/// Class 0 (A, root) holds n0 = f(B) of cost 5 and n1 = g(B) of cost 2;
/// class 1 (B) is a single leaf of cost 1.
fn shared_subexpression() -> EGraph {
    EGraph {
        nodes: vec![node("f", vec![2], 0, 5), node("g", vec![2], 0, 2), node("b", vec![], 1, 1)],
        classes: vec![Class { id: 0, nodes: vec![0, 1] }, Class { id: 1, nodes: vec![2] }],
        root_eclasses: vec![0],
    }
}

/// The cheapest solution of the program, found by trying every assignment.
fn solve_by_enumeration(f: &Formulation) -> Option<Vec<bool>> {
    let n = f.model.columns.len();
    assert!(n <= 16);
    let mut best: Option<(u128, Vec<bool>)> = None;
    for bits in 0..(1u32 << n) {
        let x: Vec<bool> = (0..n).map(|c| bits & (1 << c) != 0).collect();
        if f.model.is_solution(&x) {
            let value = f.model.objective_value(&x);
            if best.as_ref().map_or(true, |b| value < b.0) {
                best = Some((value, x));
            }
        }
    }
    best.map(|b| b.1)
}

#[test]
fn program_of_shared_subexpression() {
    let g = shared_subexpression();
    let f = CbcExtractor.formulate(&g, &g.root_eclasses).unwrap();
    // Column 0 is the true literal and stands for the root class; then
    // come the two nodes of class 0, the class column of class 1 and its
    // node.
    assert_eq!(TRUE_LITERAL, 0);
    assert_eq!(f.vars.len(), 2);
    assert_eq!(f.vars[0].active, 0);
    assert_eq!(f.vars[0].nodes, vec![1, 2]);
    assert_eq!(f.vars[1].active, 3);
    assert_eq!(f.vars[1].nodes, vec![4]);
    assert_eq!(f.model.columns.len(), 5);
    assert!(f.banned.is_empty());
    assert!(f.model.columns[0].forced_on);
    assert!(f.model.columns.iter().all(|c| !c.forced_off));
    let objective: Vec<u64> = f.model.columns.iter().map(|c| c.objective).collect();
    assert_eq!(objective, vec![2, 3, 0, 1, 0]);
    // Class 0: its row, then "class 0 used implies class 1 used" because
    // both nodes have their child in class 1. Class 1: its row.
    let rows: Vec<(RowKind, Vec<(usize, i8)>)> =
        f.model.rows.iter().map(|r| (r.kind, r.weights.clone())).collect();
    assert_eq!(
        rows,
        vec![
            (RowKind::Equal, vec![(0, -1), (1, 1), (2, 1)]),
            (RowKind::AtMost, vec![(0, 1), (3, -1)]),
            (RowKind::Equal, vec![(3, -1), (4, 1)]),
        ]
    );
}

#[test]
fn exact_extraction_of_shared_subexpression() {
    let g = shared_subexpression();
    let f = CbcExtractor.formulate(&g, &g.root_eclasses).unwrap();
    let solution = solve_by_enumeration(&f).unwrap();
    let r = CbcExtractor.extract(&g, &g.root_eclasses, &f, &solution).unwrap();
    assert_eq!(r.get_node(0), Some(1));
    assert_eq!(r.get_node(1), Some(2));
    assert_eq!(r.dag_cost(&g, &g.root_eclasses), 3);
    assert!(r.find_cycles(&g, &g.root_eclasses).is_empty());
}

#[test]
fn exact_extraction_of_single_leaf() {
    let g = EGraph {
        nodes: vec![node("x", vec![], 0, 1)],
        classes: vec![Class { id: 0, nodes: vec![0] }],
        root_eclasses: vec![0],
    };
    let f = CbcExtractor.formulate(&g, &g.root_eclasses).unwrap();
    let solution = solve_by_enumeration(&f).unwrap();
    assert_eq!(solution, vec![true, true]);
    let r = CbcExtractor.extract(&g, &g.root_eclasses, &f, &solution).unwrap();
    assert_eq!(r.get_node(0), Some(0));
    assert_eq!(r.len(), 1);
    assert_eq!(r.dag_cost(&g, &g.root_eclasses), 1);
}

/// Root class 0: p with two children in class 1, of cost 1, or q with a
/// child in class 2, of cost 1. Class 1: leaf of cost 3. Class 2: leaf of
/// cost 4. Class 3: m with a child in class 1. As trees p costs 7 and q
/// costs 5, as DAGs p costs 4 and q costs 5.
fn sharing() -> EGraph {
    EGraph {
        nodes: vec![
            node("p", vec![2, 2], 0, 1),
            node("q", vec![3], 0, 1),
            node("x", vec![], 1, 3),
            node("y", vec![], 2, 4),
            node("m", vec![2], 3, 1),
        ],
        classes: vec![
            Class { id: 0, nodes: vec![0, 1] },
            Class { id: 1, nodes: vec![2] },
            Class { id: 2, nodes: vec![3] },
            Class { id: 3, nodes: vec![4] },
        ],
        root_eclasses: vec![0],
    }
}

#[test]
fn exact_extraction_prefers_sharing() {
    let g = sharing();
    let f = CbcExtractor.formulate(&g, &g.root_eclasses).unwrap();
    assert!(f.banned.is_empty());
    assert_eq!(f.model.columns.len(), 9);
    let solution = solve_by_enumeration(&f).unwrap();
    let r = CbcExtractor.extract(&g, &g.root_eclasses, &f, &solution).unwrap();
    assert_eq!(r.get_node(0), Some(0));
    assert_eq!(r.get_node(1), Some(2));
    assert_eq!(r.get_node(2), None);
    assert_eq!(r.get_node(3), None);
    assert_eq!(r.dag_cost(&g, &g.root_eclasses), 4);
}

#[test]
fn solution_that_is_not_the_cheapest_is_read_back() {
    let g = sharing();
    let f = CbcExtractor.formulate(&g, &g.root_eclasses).unwrap();
    // Class 3 is used, so its node m is chosen, which needs class 1.
    let x = [true, false, true, false, false, true, true, true, true];
    assert!(!f.model.is_solution(&x));
    assert!(CbcExtractor.extract(&g, &g.root_eclasses, &f, &x).is_none());
    // q is chosen, and all classes are used.
    let x = [true, false, true, true, true, true, true, true, true];
    assert!(f.model.is_solution(&x));
    let r = CbcExtractor.extract(&g, &g.root_eclasses, &f, &x).unwrap();
    assert_eq!(r.get_node(0), Some(1));
    assert_eq!(r.get_node(1), Some(2));
    assert_eq!(r.get_node(2), Some(3));
    assert_eq!(r.get_node(3), Some(4));
    assert_eq!(r.dag_cost(&g, &g.root_eclasses), 5);
    assert!(r.find_cycles(&g, &g.root_eclasses).is_empty());
}

#[test]
fn exact_extraction_breaks_cycles() {
    let g = EGraph {
        nodes: vec![
            node("f", vec![1], 0, 1),
            node("g", vec![0], 1, 1),
            node("x", vec![], 0, 9),
            node("y", vec![], 1, 9),
        ],
        classes: vec![Class { id: 0, nodes: vec![0, 2] }, Class { id: 1, nodes: vec![1, 3] }],
        root_eclasses: vec![0],
    };
    let f = CbcExtractor.formulate(&g, &g.root_eclasses).unwrap();
    assert_eq!(f.banned, vec![(0, 0)]);
    assert!(f.model.columns[f.vars[0].nodes[0]].forced_off);
    assert!(!f.model.columns[f.vars[1].nodes[0]].forced_off);
    let solution = solve_by_enumeration(&f).unwrap();
    let r = CbcExtractor.extract(&g, &g.root_eclasses, &f, &solution).unwrap();
    assert_eq!(r.get_node(0), Some(2));
    assert!(r.find_cycles(&g, &g.root_eclasses).is_empty());
}

#[test]
fn assignment_that_is_no_solution_is_refused() {
    let g = shared_subexpression();
    let f = CbcExtractor.formulate(&g, &g.root_eclasses).unwrap();
    // The root is not used.
    assert!(CbcExtractor.extract(&g, &g.root_eclasses, &f, &[false; 5]).is_none());
    // A node is chosen whose child's class is not used.
    assert!(CbcExtractor
        .extract(&g, &g.root_eclasses, &f, &[true, false, true, false, false])
        .is_none());
    // Two nodes of one class are chosen.
    assert!(CbcExtractor
        .extract(&g, &g.root_eclasses, &f, &[true, true, true, true, true])
        .is_none());
    // The assignment is too short.
    assert!(CbcExtractor.extract(&g, &g.root_eclasses, &f, &[true, false, true]).is_none());
    // A solution that is not the cheapest is still read back.
    let r = CbcExtractor
        .extract(&g, &g.root_eclasses, &f, &[true, true, false, true, true])
        .unwrap();
    assert_eq!(r.get_node(0), Some(0));
    assert_eq!(r.get_node(1), Some(2));
}

#[test]
fn exact_extraction_takes_the_cheap_node_in_either_listing_order() {
    for cheap_first in [false, true] {
        let (first, second) = if cheap_first { (2, 5) } else { (5, 2) };
        let g = EGraph {
            nodes: vec![
                node("f", vec![2], 0, first),
                node("g", vec![2], 0, second),
                node("b", vec![], 1, 1),
            ],
            classes: vec![Class { id: 0, nodes: vec![0, 1] }, Class { id: 1, nodes: vec![2] }],
            root_eclasses: vec![0],
        };
        let f = CbcExtractor.formulate(&g, &g.root_eclasses).unwrap();
        assert!(f.banned.is_empty());
        let solution = solve_by_enumeration(&f).unwrap();
        let r = CbcExtractor.extract(&g, &g.root_eclasses, &f, &solution).unwrap();
        assert_eq!(r.get_node(0), Some(if cheap_first { 0 } else { 1 }));
        assert_eq!(r.get_node(1), Some(2));
        assert_eq!(r.dag_cost(&g, &g.root_eclasses), 3);
    }
}

#[test]
fn exact_extraction_beats_the_greedy_choice_by_sharing() {
    // Root r with a child in A and one in B. A and B each hold a leaf of
    // cost 3 and a node of cost 1 over the shared leaf S of cost 3.
    let g = EGraph {
        nodes: vec![
            node("r", vec![1, 3], 0, 1),
            node("a1", vec![], 1, 3),
            node("a2", vec![5], 1, 1),
            node("b1", vec![], 2, 3),
            node("b2", vec![5], 2, 1),
            node("s", vec![], 3, 3),
        ],
        classes: vec![
            Class { id: 0, nodes: vec![0] },
            Class { id: 1, nodes: vec![1, 2] },
            Class { id: 2, nodes: vec![3, 4] },
            Class { id: 3, nodes: vec![5] },
        ],
        root_eclasses: vec![0],
    };
    assert!(g.is_well_formed());
    let f = CbcExtractor.formulate(&g, &g.root_eclasses).unwrap();
    assert!(f.banned.is_empty());
    let solution = solve_by_enumeration(&f).unwrap();
    let r = CbcExtractor.extract(&g, &g.root_eclasses, &f, &solution).unwrap();
    assert_eq!(r.get_node(1), Some(2));
    assert_eq!(r.get_node(2), Some(4));
    assert_eq!(r.dag_cost(&g, &g.root_eclasses), 6);
}

#[test]
fn rows_are_checked_as_written() {
    let model = Model {
        columns: vec![
            Column { forced_on: false, forced_off: false, objective: 0 },
            Column { forced_on: false, forced_off: false, objective: 0 },
        ],
        rows: vec![Row { kind: RowKind::AtMost, weights: vec![(0, 1), (1, -1)] }],
    };
    assert!(model.is_solution(&[false, false]));
    assert!(model.is_solution(&[false, true]));
    assert!(model.is_solution(&[true, true]));
    assert!(!model.is_solution(&[true, false]));
    assert!(!model.is_solution(&[true]));
    let equal = Model {
        columns: vec![
            Column { forced_on: true, forced_off: false, objective: 0 },
            Column { forced_on: false, forced_off: true, objective: 0 },
        ],
        rows: vec![Row { kind: RowKind::Equal, weights: vec![(0, -1), (0, 1)] }],
    };
    assert!(equal.is_solution(&[true, false]));
    assert!(!equal.is_solution(&[false, false]));
    assert!(!equal.is_solution(&[true, true]));
}

#[test]
fn roots_are_found_among_the_roots() {
    assert!(contains_class(&[4, 2], 2));
    assert!(!contains_class(&[4, 2], 3));
    assert!(!contains_class(&[], 0));
}

#[test]
fn objective_is_the_cost_of_the_selection() {
    let g = shared_subexpression();
    let f = CbcExtractor.formulate(&g, &g.root_eclasses).unwrap();
    // The root class is charged its least cost, 2, on the column fixed to
    // 1, so the objective is the cost of the chosen nodes.
    let cheap = [true, false, true, true, true];
    assert_eq!(f.model.objective_value(&cheap), 3);
    let r = CbcExtractor.extract(&g, &g.root_eclasses, &f, &cheap).unwrap();
    assert_eq!(r.dag_cost(&g, &g.root_eclasses), 3);
    let dear = [true, true, false, true, true];
    assert_eq!(f.model.objective_value(&dear), 6);
    let r = CbcExtractor.extract(&g, &g.root_eclasses, &f, &dear).unwrap();
    assert_eq!(r.dag_cost(&g, &g.root_eclasses), 6);
    // A column that the assignment does not reach counts as 0.
    assert_eq!(f.model.objective_value(&[true, true]), 5);
    assert_eq!(f.model.objective_value(&[]), 0);
}

#[test]
fn objective_charges_an_unused_class_nothing() {
    // The root is a leaf; class 1 is not needed.
    let g = EGraph {
        nodes: vec![node("r", vec![], 0, 4), node("a", vec![], 1, 7)],
        classes: vec![Class { id: 0, nodes: vec![0] }, Class { id: 1, nodes: vec![1] }],
        root_eclasses: vec![0],
    };
    let f = CbcExtractor.formulate(&g, &g.root_eclasses).unwrap();
    let solution = solve_by_enumeration(&f).unwrap();
    assert_eq!(solution, vec![true, true, false, false]);
    assert_eq!(f.model.objective_value(&solution), 4);
    let with_both = [true, true, true, true];
    assert!(f.model.is_solution(&with_both));
    assert_eq!(f.model.objective_value(&with_both), 11);
    let r = CbcExtractor.extract(&g, &g.root_eclasses, &f, &with_both).unwrap();
    assert_eq!(r.len(), 2);
    assert_eq!(r.dag_cost(&g, &g.root_eclasses), 4);
}

#[test]
fn rows_name_the_class_of_a_child_once() {
    // Class 0 (root): f with both children in class 1, and g with one
    // child in class 1 and one in class 2.
    let g = EGraph {
        nodes: vec![
            node("f", vec![2, 2], 0, 1),
            node("g", vec![2, 3], 0, 1),
            node("a", vec![], 1, 1),
            node("b", vec![], 2, 1),
        ],
        classes: vec![
            Class { id: 0, nodes: vec![0, 1] },
            Class { id: 1, nodes: vec![2] },
            Class { id: 2, nodes: vec![3] },
        ],
        root_eclasses: vec![0],
    };
    let f = CbcExtractor.formulate(&g, &g.root_eclasses).unwrap();
    // Columns: 0 true literal (class 0), 1 f, 2 g, 3 class 1, 4 a,
    // 5 class 2, 6 b.
    let rows: Vec<(RowKind, Vec<(usize, i8)>)> =
        f.model.rows.iter().map(|r| (r.kind, r.weights.clone())).collect();
    assert_eq!(
        rows,
        vec![
            (RowKind::Equal, vec![(0, -1), (1, 1), (2, 1)]),
            // Both nodes have a child in class 1: one row for the class.
            (RowKind::AtMost, vec![(0, 1), (3, -1)]),
            // g alone has a child in class 2.
            (RowKind::AtMost, vec![(2, 1), (5, -1)]),
            (RowKind::Equal, vec![(3, -1), (4, 1)]),
            (RowKind::Equal, vec![(5, -1), (6, 1)]),
        ]
    );
}

#[test]
fn exact_extraction_goes_through_a_class_on_a_cycle() {
    // R (0) holds r with children in Y and X; X (1) holds f with a child
    // in Y; Y (2) holds g with a child in X, and a leaf.
    let g = EGraph {
        nodes: vec![
            node("r", vec![2, 1], 0, 1),
            node("f", vec![2], 1, 1),
            node("g", vec![1], 2, 1),
            node("y", vec![], 2, 1),
        ],
        classes: vec![
            Class { id: 0, nodes: vec![0] },
            Class { id: 1, nodes: vec![1] },
            Class { id: 2, nodes: vec![2, 3] },
        ],
        root_eclasses: vec![0],
    };
    let f = CbcExtractor.formulate(&g, &g.root_eclasses).unwrap();
    assert_eq!(f.banned, vec![(2, 0)]);
    let solution = solve_by_enumeration(&f).unwrap();
    let r = CbcExtractor.extract(&g, &g.root_eclasses, &f, &solution).unwrap();
    assert_eq!(r.get_node(0), Some(0));
    assert_eq!(r.get_node(1), Some(1));
    assert_eq!(r.get_node(2), Some(3));
    assert_eq!(r.dag_cost(&g, &g.root_eclasses), 3);
    assert!(r.find_cycles(&g, &g.root_eclasses).is_empty());
}

#[test]
fn banned_node_is_not_taken_even_where_it_is_cheaper() {
    // X (0) holds f with a child in Y, and a leaf of cost 100; Y (1) holds
    // g with a child in X, and a leaf of cost 1. X is placed first,
    // through its leaf, so f is the node that points upwards on the cycle.
    let g = EGraph {
        nodes: vec![
            node("f", vec![1], 0, 1),
            node("g", vec![0], 1, 1),
            node("x", vec![], 0, 100),
            node("y", vec![], 1, 1),
        ],
        classes: vec![Class { id: 0, nodes: vec![0, 2] }, Class { id: 1, nodes: vec![1, 3] }],
        root_eclasses: vec![0],
    };
    let f = CbcExtractor.formulate(&g, &g.root_eclasses).unwrap();
    assert_eq!(f.banned, vec![(0, 0)]);
    let solution = solve_by_enumeration(&f).unwrap();
    let r = CbcExtractor.extract(&g, &g.root_eclasses, &f, &solution).unwrap();
    assert_eq!(r.get_node(0), Some(2));
    assert_eq!(r.dag_cost(&g, &g.root_eclasses), 100);
}
