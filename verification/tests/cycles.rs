use extraction_gym::class_reach::reaches_class;
use extraction_gym::cycle_breaking;
use extraction_gym::cycles::Status;
use extraction_gym::derivation::{children_before, place_classes, UNPLACED};
use extraction_gym::extraction_result::ExtractionResult;
use extraction_gym::graph::{Class, EGraph, Node};
use extraction_gym::status_table::StatusTable;

fn node(op: &str, children: Vec<usize>, eclass: usize, cost: u64) -> Node {
    Node { op: op.to_string(), children, eclass, cost }
}

/// Classes X (0) and Y (1): X holds f(Y) and a leaf, Y holds g(X) and a
/// leaf.
fn two_class_cycle() -> EGraph {
    EGraph {
        nodes: vec![
            node("f", vec![1], 0, 1),
            node("g", vec![0], 1, 1),
            node("x", vec![], 0, 9),
            node("y", vec![], 1, 9),
        ],
        classes: vec![Class { id: 0, nodes: vec![0, 2] }, Class { id: 1, nodes: vec![1, 3] }],
        root_eclasses: vec![0],
    }
}

#[test]
fn acyclic_choices_report_nothing() {
    let g = two_class_cycle();
    let mut r = ExtractionResult::default();
    r.choose_node(0, 0);
    r.choose_node(1, 3);
    assert!(r.find_cycles(&g, &g.root_eclasses).is_empty());
    assert!(r.find_cycles(&g, &[1]).is_empty());
    assert!(r.find_cycles(&g, &[]).is_empty());
}

#[test]
fn cycle_is_reported_from_either_class() {
    let g = two_class_cycle();
    let mut r = ExtractionResult::default();
    r.choose_node(0, 0);
    r.choose_node(1, 1);
    assert_eq!(r.find_cycles(&g, &[0]), vec![0]);
    assert_eq!(r.find_cycles(&g, &[1]), vec![1]);
}

#[test]
fn self_loop_is_reported() {
    let g = EGraph {
        nodes: vec![node("f", vec![0], 0, 1)],
        classes: vec![Class { id: 0, nodes: vec![0] }],
        root_eclasses: vec![0],
    };
    let mut r = ExtractionResult::default();
    r.choose_node(0, 0);
    assert_eq!(r.find_cycles(&g, &g.root_eclasses), vec![0]);
}

#[test]
fn missing_choice_is_reported() {
    let g = two_class_cycle();
    let mut r = ExtractionResult::default();
    r.choose_node(0, 0);
    assert_eq!(r.find_cycles(&g, &g.root_eclasses), vec![1]);
    assert_eq!(ExtractionResult::default().find_cycles(&g, &g.root_eclasses), vec![0]);
}

#[test]
fn choice_from_another_class_is_reported() {
    let g = two_class_cycle();
    let mut r = ExtractionResult::default();
    r.choose_node(0, 3);
    assert_eq!(r.find_cycles(&g, &g.root_eclasses), vec![0]);
    let mut r = ExtractionResult::default();
    r.choose_node(0, 40);
    assert_eq!(r.find_cycles(&g, &g.root_eclasses), vec![0]);
}

#[test]
fn cycle_outside_the_roots_is_not_looked_at() {
    let g = EGraph {
        nodes: vec![
            node("a", vec![], 0, 1),
            node("f", vec![2], 1, 1),
            node("g", vec![1], 2, 1),
        ],
        classes: vec![
            Class { id: 0, nodes: vec![0] },
            Class { id: 1, nodes: vec![1] },
            Class { id: 2, nodes: vec![2] },
        ],
        root_eclasses: vec![0],
    };
    let mut r = ExtractionResult::default();
    r.choose_node(0, 0);
    r.choose_node(1, 1);
    r.choose_node(2, 2);
    assert!(r.find_cycles(&g, &g.root_eclasses).is_empty());
    assert!(!r.find_cycles(&g, &[0, 2]).is_empty());
}

#[test]
fn pass_bans_the_node_that_closes_the_cycle() {
    // X is placed first, through its leaf, and Y after it, through g. So
    // f, whose child is in Y, is the node that points upwards.
    let g = two_class_cycle();
    assert_eq!(cycle_breaking::find_cycles(&g), vec![(0, 0)]);
    assert!(cycle_breaking::lies_on_cycle(&g, (0, 0)));
    assert!(cycle_breaking::lies_on_cycle(&g, (1, 0)));
    assert!(!cycle_breaking::lies_on_cycle(&g, (0, 1)));
    // The roots do not matter.
    let mut h = two_class_cycle();
    h.root_eclasses = vec![1];
    assert_eq!(cycle_breaking::find_cycles(&h), vec![(0, 0)]);
}

#[test]
fn pass_keeps_a_node_for_every_class_that_can_be_built() {
    // R (0) holds r with children in Y and X; X (1) holds f with a child
    // in Y; Y (2) holds g with a child in X, and a leaf.
    let g = EGraph {
        nodes: vec![
            node("r", vec![2, 1], 0, 1),
            node("f", vec![2], 1, 1),
            node("g", vec![1], 2, 1),
            node("y", vec![], 2, 1),
        ],
        classes: vec![
            Class { id: 0, nodes: vec![0] },
            Class { id: 1, nodes: vec![1] },
            Class { id: 2, nodes: vec![2, 3] },
        ],
        root_eclasses: vec![0],
    };
    assert!(g.is_well_formed());
    // Y is placed through its leaf, then X through f, then R: only g
    // points upwards.
    assert_eq!(place_classes(&g), vec![2, 1, 0]);
    assert_eq!(cycle_breaking::find_cycles(&g), vec![(2, 0)]);
}

#[test]
fn classes_are_placed_from_the_leaves_up() {
    let g = two_class_cycle();
    assert_eq!(place_classes(&g), vec![0, 1]);
    // A class whose nodes all depend on the class itself has no place.
    let looped = EGraph {
        nodes: vec![node("a", vec![], 0, 1), node("f", vec![1], 1, 1), node("g", vec![1, 0], 1, 1)],
        classes: vec![Class { id: 0, nodes: vec![0] }, Class { id: 1, nodes: vec![1, 2] }],
        root_eclasses: vec![0],
    };
    assert_eq!(place_classes(&looped), vec![0, UNPLACED]);
    assert!(children_before(&looped, &vec![0, UNPLACED], 1, 1, UNPLACED) == false);
    assert!(children_before(&looped, &vec![0, 5], 1, 1, 6));
    assert!(!children_before(&looped, &vec![0, 5], 1, 1, 5));
}

#[test]
fn one_class_reaches_another_through_children() {
    let g = EGraph {
        nodes: vec![node("a", vec![], 0, 1), node("f", vec![0], 1, 1), node("g", vec![1, 0], 2, 1)],
        classes: vec![
            Class { id: 0, nodes: vec![0] },
            Class { id: 1, nodes: vec![1] },
            Class { id: 2, nodes: vec![2] },
        ],
        root_eclasses: vec![2],
    };
    assert!(reaches_class(&g, 2, 0));
    assert!(reaches_class(&g, 2, 1));
    assert!(reaches_class(&g, 1, 0));
    assert!(reaches_class(&g, 1, 1));
    assert!(!reaches_class(&g, 0, 1));
    assert!(!reaches_class(&g, 1, 2));
    let cyclic = two_class_cycle();
    assert!(reaches_class(&cyclic, 0, 1));
    assert!(reaches_class(&cyclic, 1, 0));
}

#[test]
fn pass_bans_nothing_in_a_chain() {
    let g = EGraph {
        nodes: vec![node("a", vec![], 0, 1), node("f", vec![0], 1, 1), node("g", vec![1, 0], 2, 1)],
        classes: vec![
            Class { id: 0, nodes: vec![0] },
            Class { id: 1, nodes: vec![1] },
            Class { id: 2, nodes: vec![2] },
        ],
        root_eclasses: vec![2],
    };
    assert!(cycle_breaking::find_cycles(&g).is_empty());
}

#[test]
fn pass_bans_nothing_in_a_class_of_two_nodes_over_one_leaf() {
    for order in [[0, 1], [1, 0]] {
        let costs = [5, 2];
        let g = EGraph {
            nodes: vec![
                node("f", vec![2], 0, costs[order[0]]),
                node("g", vec![2], 0, costs[order[1]]),
                node("b", vec![], 1, 1),
            ],
            classes: vec![Class { id: 0, nodes: vec![0, 1] }, Class { id: 1, nodes: vec![2] }],
            root_eclasses: vec![0],
        };
        assert!(cycle_breaking::find_cycles(&g).is_empty());
        let mut unrooted = g;
        unrooted.root_eclasses.clear();
        assert!(cycle_breaking::find_cycles(&unrooted).is_empty());
    }
}

#[test]
fn pass_bans_nothing_where_a_class_is_placed_before_a_class_it_uses() {
    // Class 1 (A) holds f with a child in B and g with a child in C;
    // class 0 (C) holds h with a child in B; class 2 (B) is a leaf.
    let g = EGraph {
        nodes: vec![
            node("h", vec![3], 0, 1),
            node("f", vec![3], 1, 1),
            node("g", vec![0], 1, 1),
            node("b", vec![], 2, 1),
        ],
        classes: vec![
            Class { id: 0, nodes: vec![0] },
            Class { id: 1, nodes: vec![1, 2] },
            Class { id: 2, nodes: vec![3] },
        ],
        root_eclasses: vec![1],
    };
    assert!(g.is_well_formed());
    assert!(cycle_breaking::find_cycles(&g).is_empty());
}

#[test]
fn pass_bans_nodes_that_use_their_own_class() {
    let g = EGraph {
        nodes: vec![node("a", vec![], 0, 1), node("f", vec![1], 1, 1), node("g", vec![1, 0], 1, 1)],
        classes: vec![Class { id: 0, nodes: vec![0] }, Class { id: 1, nodes: vec![1, 2] }],
        root_eclasses: vec![0],
    };
    assert_eq!(cycle_breaking::find_cycles(&g), vec![(1, 0), (1, 1)]);
}

#[test]
fn status_table_keeps_the_marks_of_a_walk() {
    let mut table = StatusTable::new(3);
    assert!(table.get(0) == Status::Unvisited);
    assert!(table.get(2) == Status::Unvisited);
    table.set(2, Status::InProgress);
    assert!(table.get(2) == Status::InProgress);
    assert!(table.get(1) == Status::Unvisited);
    table.set(2, Status::Done);
    table.set(0, Status::InProgress);
    assert!(table.get(2) == Status::Done);
    assert!(table.get(0) == Status::InProgress);
    assert!(table.get(1) == Status::Unvisited);
}

#[test]
fn reported_classes_are_in_reach_of_the_roots() {
    // Class 2 has no choice, but the root does not depend on it.
    let g = EGraph {
        nodes: vec![node("f", vec![1], 0, 1), node("a", vec![], 1, 1), node("b", vec![], 2, 1)],
        classes: vec![
            Class { id: 0, nodes: vec![0] },
            Class { id: 1, nodes: vec![1] },
            Class { id: 2, nodes: vec![2] },
        ],
        root_eclasses: vec![0],
    };
    let mut r = ExtractionResult::default();
    r.choose_node(0, 0);
    r.choose_node(1, 1);
    assert!(r.find_cycles(&g, &[0]).is_empty());
    assert_eq!(r.find_cycles(&g, &[0, 2]), vec![2]);
}
