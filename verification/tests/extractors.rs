use extraction_gym::bottom_up::BottomUpExtractor;
use extraction_gym::extract::Extractor;
use extraction_gym::extraction_result::ExtractionResult;
use extraction_gym::faster_bottom_up::FasterBottomUpExtractorRandom;
use extraction_gym::graph::{Class, EGraph, Node, INFINITY};
use extraction_gym::incremental::{
    accepts, default_visit_budget, eviction_count, FasterBottomUpExtractorRandomIncremental,
    VISITS_PER_NODE,
};
use extraction_gym::random::PROBABILITY_SCALE;
use extraction_gym::sampling::takes_random_node;
use extraction_gym::unique_queue::UniqueQueue;
use extraction_gym::worklist::{build_parents, seed_leaves};

fn node(op: &str, children: Vec<usize>, eclass: usize, cost: u64) -> Node {
    Node { op: op.to_string(), children, eclass, cost }
}

/// Class 0 (root): n0 = f(1, 2) cost 1, n1 = g(3) cost 10.
/// Class 1: n2 = a leaf cost 4, n3 = h(2) cost 1.
/// Class 2: n4 = b leaf cost 2, n5 = k(0) cost 0 (closes a cycle).
/// Class 3: n6 = c leaf cost 1.
/// Class 4: n7 = u(4), which can never be built.
fn mixed() -> EGraph {
    EGraph {
        nodes: vec![
            node("f", vec![2, 4], 0, 1),
            node("g", vec![6], 0, 10),
            node("a", vec![], 1, 4),
            node("h", vec![4], 1, 1),
            node("b", vec![], 2, 2),
            node("k", vec![0], 2, 0),
            node("c", vec![], 3, 1),
            node("u", vec![7], 4, 1),
        ],
        classes: vec![
            Class { id: 0, nodes: vec![0, 1] },
            Class { id: 1, nodes: vec![2, 3] },
            Class { id: 2, nodes: vec![4, 5] },
            Class { id: 3, nodes: vec![6] },
            Class { id: 4, nodes: vec![7] },
        ],
        root_eclasses: vec![0],
    }
}

fn check_mixed_sum(r: &ExtractionResult, g: &EGraph) {
    // Class 2 costs 2 (leaf b), class 1 costs 1 + 2 = 3 (h), class 0
    // costs 1 + 3 + 2 = 6 (f), class 3 costs 1.
    assert_eq!(r.get_node(0), Some(0));
    assert_eq!(r.get_node(1), Some(3));
    assert_eq!(r.get_node(2), Some(4));
    assert_eq!(r.get_node(3), Some(6));
    assert_eq!(r.get_node(4), None);
    assert_eq!(r.len(), 4);
    assert_eq!(r.tree_cost(g, &g.root_eclasses), 6);
    assert_eq!(r.dag_cost(g, &g.root_eclasses), 4);
    assert!(r.find_cycles(g, &g.root_eclasses).is_empty());
    assert!(r.find_cycles(g, &[0, 1, 2, 3]).is_empty());
}

#[test]
fn fixed_point_on_mixed_graph() {
    let g = mixed();
    assert!(g.is_well_formed());
    let r = BottomUpExtractor.extract(&g, &g.root_eclasses, "node_sum_cost", 0);
    check_mixed_sum(&r, &g);
}

#[test]
fn work_queue_on_mixed_graph() {
    let g = mixed();
    let r = FasterBottomUpExtractorRandom.extract(&g, &g.root_eclasses, "node_sum_cost", 0);
    check_mixed_sum(&r, &g);
}

#[test]
fn extractors_agree_on_dag_cost() {
    let g = mixed();
    for cf in ["node_sum_cost", "node_depth_cost"] {
        let a = BottomUpExtractor.extract(&g, &g.root_eclasses, cf, 0);
        let b = FasterBottomUpExtractorRandom.extract(&g, &g.root_eclasses, cf, 0);
        assert_eq!(a.dag_cost(&g, &g.root_eclasses), b.dag_cost(&g, &g.root_eclasses));
        assert_eq!(a.len(), b.len());
        for c in 0..g.classes.len() {
            assert_eq!(a.get_node(c), b.get_node(c));
        }
    }
}

#[test]
fn repeated_runs_give_the_same_dag_cost() {
    let g = mixed();
    let first = FasterBottomUpExtractorRandom.extract(&g, &g.root_eclasses, "node_sum_cost", 0);
    for _ in 0..5 {
        let again = FasterBottomUpExtractorRandom.extract(&g, &g.root_eclasses, "node_sum_cost", 0);
        assert_eq!(
            first.dag_cost(&g, &g.root_eclasses),
            again.dag_cost(&g, &g.root_eclasses)
        );
        let passes = BottomUpExtractor.extract(&g, &g.root_eclasses, "node_sum_cost", 0);
        assert_eq!(
            first.dag_cost(&g, &g.root_eclasses),
            passes.dag_cost(&g, &g.root_eclasses)
        );
    }
}

#[test]
fn depth_cost_prefers_the_shallow_node() {
    // Root class 0: wide = w(1, 1, 1) cost 1, deep = d(2) cost 1.
    // Class 1: leaf cost 3. Class 2: e(1) cost 1.
    let g = EGraph {
        nodes: vec![
            node("w", vec![2, 2, 2], 0, 1),
            node("d", vec![3], 0, 1),
            node("x", vec![], 1, 3),
            node("e", vec![2], 2, 1),
        ],
        classes: vec![
            Class { id: 0, nodes: vec![0, 1] },
            Class { id: 1, nodes: vec![2] },
            Class { id: 2, nodes: vec![3] },
        ],
        root_eclasses: vec![0],
    };
    // Sum: wide costs 1 + 9 = 10, deep costs 1 + (1 + 3) = 5.
    let by_sum = BottomUpExtractor.extract(&g, &g.root_eclasses, "node_sum_cost", 0);
    assert_eq!(by_sum.get_node(0), Some(1));
    // Depth: wide costs 1 + 3 = 4, deep costs 1 + 4 = 5.
    let by_depth = BottomUpExtractor.extract(&g, &g.root_eclasses, "node_depth_cost", 0);
    assert_eq!(by_depth.get_node(0), Some(0));
    let queued = FasterBottomUpExtractorRandom.extract(&g, &g.root_eclasses, "node_depth_cost", 0);
    assert_eq!(queued.get_node(0), Some(0));
    assert_eq!(queued.dag_cost(&g, &g.root_eclasses), 4);
}

#[test]
fn zero_cost_cycle_is_not_chosen() {
    // Classes 0 and 1 can reach each other at no cost; only the leaf of
    // class 0 grounds them.
    let g = EGraph {
        nodes: vec![node("f", vec![1], 0, 0), node("x", vec![], 0, 5), node("g", vec![0], 1, 0)],
        classes: vec![Class { id: 0, nodes: vec![0, 1] }, Class { id: 1, nodes: vec![2] }],
        root_eclasses: vec![1],
    };
    for r in [
        BottomUpExtractor.extract(&g, &g.root_eclasses, "node_sum_cost", 0),
        FasterBottomUpExtractorRandom.extract(&g, &g.root_eclasses, "node_sum_cost", 0),
    ] {
        assert_eq!(r.get_node(0), Some(1));
        assert_eq!(r.get_node(1), Some(2));
        assert!(r.find_cycles(&g, &g.root_eclasses).is_empty());
        assert_eq!(r.dag_cost(&g, &g.root_eclasses), 5);
    }
}

#[test]
fn node_that_costs_infinity_is_never_chosen() {
    let g = EGraph {
        nodes: vec![node("x", vec![], 0, INFINITY), node("y", vec![], 1, INFINITY - 1)],
        classes: vec![Class { id: 0, nodes: vec![0] }, Class { id: 1, nodes: vec![1] }],
        root_eclasses: vec![1],
    };
    for r in [
        BottomUpExtractor.extract(&g, &g.root_eclasses, "node_sum_cost", 0),
        FasterBottomUpExtractorRandom.extract(&g, &g.root_eclasses, "node_sum_cost", 0),
    ] {
        assert_eq!(r.get_node(0), None);
        assert_eq!(r.get_node(1), Some(1));
    }
}

#[test]
fn empty_graph_gives_empty_result() {
    let g = EGraph::new();
    assert_eq!(BottomUpExtractor.extract(&g, &[], "node_sum_cost", 0).len(), 0);
    assert_eq!(FasterBottomUpExtractorRandom.extract(&g, &[], "node_sum_cost", 0).len(), 0);
}

#[test]
fn parents_index_lists_users_in_order() {
    let g = mixed();
    let parents = build_parents(&g);
    assert_eq!(parents, vec![vec![5], vec![0], vec![0, 3], vec![1], vec![7]]);
}

#[test]
fn leaves_seed_the_queue_in_order() {
    let g = mixed();
    let mut queue = seed_leaves(&g);
    assert_eq!(queue.pop(), Some(2));
    assert_eq!(queue.pop(), Some(4));
    assert_eq!(queue.pop(), Some(6));
    assert_eq!(queue.pop(), None);
}

#[test]
fn unique_queue_suppresses_what_is_waiting() {
    let mut q = UniqueQueue::default();
    assert!(q.is_empty());
    q.insert(3);
    q.insert(1);
    q.insert(3);
    q.extend(&vec![1, 7, 7, 2]);
    assert!(!q.is_empty());
    assert_eq!(q.pop(), Some(3));
    q.insert(3);
    assert_eq!(q.pop(), Some(1));
    assert_eq!(q.pop(), Some(7));
    assert_eq!(q.pop(), Some(2));
    assert_eq!(q.pop(), Some(3));
    assert_eq!(q.pop(), None);
    assert!(q.is_empty());
}

#[test]
fn tie_rule_of_resumed_extraction() {
    assert!(accepts(INFINITY, 7, 0, PROBABILITY_SCALE));
    assert!(accepts(INFINITY, INFINITY, 0, PROBABILITY_SCALE));
    assert!(accepts(8, 7, 0, PROBABILITY_SCALE));
    assert!(!accepts(7, 8, 999_999, 0));
    assert!(accepts(7, 7, 0, 0));
    assert!(accepts(7, 7, 250_000, 250_000));
    assert!(!accepts(7, 7, 249_999, 250_000));
    assert!(!accepts(7, 7, 999_999, PROBABILITY_SCALE));
}

#[test]
fn a_tenth_is_evicted_but_at_least_one() {
    assert_eq!(eviction_count(0), 1);
    assert_eq!(eviction_count(9), 1);
    assert_eq!(eviction_count(10), 1);
    assert_eq!(eviction_count(19), 1);
    assert_eq!(eviction_count(20), 2);
    assert_eq!(eviction_count(105), 10);
}

#[test]
fn visit_budget_grows_with_the_graph() {
    assert_eq!(VISITS_PER_NODE, 64);
    assert_eq!(default_visit_budget(0), 0);
    assert_eq!(default_visit_budget(3), 192);
    assert_eq!(default_visit_budget(usize::MAX / 64), usize::MAX / 64 * 64);
    assert_eq!(default_visit_budget(usize::MAX / 64 + 1), usize::MAX);
    assert_eq!(default_visit_budget(usize::MAX), usize::MAX);
}

#[test]
fn neighbour_keeps_every_class_chosen() {
    let g = mixed();
    let base = FasterBottomUpExtractorRandom.extract(&g, &g.root_eclasses, "node_sum_cost", 0);
    for random_prob in [0, 100_000, PROBABILITY_SCALE] {
        for _ in 0..20 {
            let next = FasterBottomUpExtractorRandomIncremental.extract_incremental(
                &g,
                &g.root_eclasses,
                "node_sum_cost",
                random_prob,
                &base,
            );
            assert_eq!(next.len(), base.len());
            for c in 0..g.classes.len() {
                match (base.get_node(c), next.get_node(c)) {
                    (Some(_), Some(n)) => {
                        assert!(g.classes[c].nodes.contains(&n));
                    }
                    (None, None) => {}
                    other => panic!("class {} went from {:?}", c, other),
                }
            }
        }
    }
}

#[test]
fn neighbour_without_ties_is_the_same_selection() {
    let g = mixed();
    // The seed lists each class after the classes that its node uses, so
    // every class is priced at its true cost.
    let mut base = ExtractionResult::default();
    base.choose_node(2, 4);
    base.choose_node(3, 6);
    base.choose_node(1, 3);
    base.choose_node(0, 0);
    for _ in 0..20 {
        let next = FasterBottomUpExtractorRandomIncremental.extract_incremental(
            &g,
            &g.root_eclasses,
            "node_sum_cost",
            PROBABILITY_SCALE,
            &base,
        );
        assert!(next.find_cycles(&g, &g.root_eclasses).is_empty());
        for c in 0..g.classes.len() {
            assert_eq!(next.get_node(c), base.get_node(c));
        }
    }
}

#[test]
fn class_priced_before_its_children_takes_the_node_met_first() {
    let g = mixed();
    // Class 0 is listed first: its node f is priced while the classes it
    // uses have no cost, so class 0 starts without a finite cost.
    let mut base = ExtractionResult::default();
    base.choose_node(0, 0);
    base.choose_node(2, 4);
    base.choose_node(3, 6);
    base.choose_node(1, 3);
    // Class 3 is evicted; its leaf is priced, then g, which uses it, is
    // met and taken by class 0.
    let next = FasterBottomUpExtractorRandomIncremental.extract_incremental_with(
        &g,
        &g.root_eclasses,
        "node_sum_cost",
        0,
        &base,
        &vec![2],
        &vec![0, 0, 0, 0],
    );
    assert_eq!(next.get_node(3), Some(6));
    assert_eq!(next.get_node(0), Some(1));
    assert_eq!(next.dag_cost(&g, &g.root_eclasses), 11);
}

#[test]
fn resumed_extraction_without_visits_returns_the_seed() {
    let g = mixed();
    let base = FasterBottomUpExtractorRandom.extract(&g, &g.root_eclasses, "node_sum_cost", 0);
    let same = FasterBottomUpExtractorRandomIncremental.extract_incremental_within(
        &g,
        &g.root_eclasses,
        "node_sum_cost",
        0,
        &base,
        0,
    );
    for c in 0..g.classes.len() {
        assert_eq!(same.get_node(c), base.get_node(c));
    }
}

#[test]
fn resumed_extraction_fills_in_from_an_empty_seed() {
    let g = mixed();
    let empty = ExtractionResult::default();
    let next = FasterBottomUpExtractorRandomIncremental.extract_incremental(
        &g,
        &g.root_eclasses,
        "node_sum_cost",
        0,
        &empty,
    );
    // Nothing has a cost, so nothing is evicted and nothing is queued.
    assert_eq!(next.len(), 0);
}

#[test]
fn tie_may_be_broken_differently() {
    // Root class 0: f with two children in class 2, or g with a child in
    // class 1, both of cost 1. Class 1: leaf of cost 4. Class 2: leaf of
    // cost 2. Both nodes of the root cost 5 in all; f shares its child.
    let g = EGraph {
        nodes: vec![
            node("f", vec![3, 3], 0, 1),
            node("g", vec![2], 0, 1),
            node("b", vec![], 1, 4),
            node("a", vec![], 2, 2),
        ],
        classes: vec![
            Class { id: 0, nodes: vec![0, 1] },
            Class { id: 1, nodes: vec![2] },
            Class { id: 2, nodes: vec![3] },
        ],
        root_eclasses: vec![0],
    };
    let passes = BottomUpExtractor.extract(&g, &g.root_eclasses, "node_sum_cost", 0);
    let queued = FasterBottomUpExtractorRandom.extract(&g, &g.root_eclasses, "node_sum_cost", 0);
    // Every class costs the same in both.
    assert_eq!(passes.tree_cost(&g, &g.root_eclasses), 5);
    assert_eq!(queued.tree_cost(&g, &g.root_eclasses), 5);
    // The passes meet f first, the queue meets g first.
    assert_eq!(passes.get_node(0), Some(0));
    assert_eq!(queued.get_node(0), Some(1));
    assert_eq!(passes.dag_cost(&g, &g.root_eclasses), 3);
    assert_eq!(queued.dag_cost(&g, &g.root_eclasses), 5);
}

#[test]
fn random_variation_keeps_the_classes() {
    assert!(takes_random_node(0, 0, 2));
    assert!(takes_random_node(5, 5, 2));
    assert!(!takes_random_node(6, 5, 2));
    assert!(!takes_random_node(0, PROBABILITY_SCALE, 1));
    assert!(!takes_random_node(0, PROBABILITY_SCALE, 0));
    let g = mixed();
    let base = FasterBottomUpExtractorRandom.extract(&g, &g.root_eclasses, "node_sum_cost", 0);
    for ratio in [0, 300_000, PROBABILITY_SCALE] {
        for _ in 0..20 {
            let varied = ExtractionResult::random_variation(&g, &base, ratio);
            assert_eq!(varied.len(), base.len());
            for i in 0..base.len() {
                let (c, n) = varied.get_index(i).unwrap();
                assert_eq!(base.get_index(i).unwrap().0, c);
                assert!(g.classes[c].nodes.contains(&n));
            }
            // Class 3 has one node only.
            assert_eq!(varied.get_node(3), Some(6));
        }
    }
}

/// Class 0 (X) holds a leaf of cost 5 and f of cost 1 over class 1 (Y),
/// which is a leaf of cost 1.
fn improvable() -> (EGraph, ExtractionResult) {
    let g = EGraph {
        nodes: vec![node("x", vec![], 0, 5), node("f", vec![2], 0, 1), node("y", vec![], 1, 1)],
        classes: vec![Class { id: 0, nodes: vec![0, 1] }, Class { id: 1, nodes: vec![2] }],
        root_eclasses: vec![0],
    };
    let mut seed = ExtractionResult::default();
    seed.choose_node(0, 0);
    seed.choose_node(1, 2);
    (g, seed)
}

#[test]
fn neighbour_differs_from_its_seed() {
    let (g, seed) = improvable();
    let resume = FasterBottomUpExtractorRandomIncremental;
    // X is evicted: its leaf is taken first, then f, which is cheaper.
    let next =
        resume.extract_incremental_with(&g, &g.root_eclasses, "node_sum_cost", 0, &seed, &vec![0], &vec![0, 0]);
    assert_eq!(next.get_node(0), Some(1));
    assert_eq!(next.get_node(1), Some(2));
    assert_eq!(next.dag_cost(&g, &g.root_eclasses), 2);
    assert!(next.find_cycles(&g, &g.root_eclasses).is_empty());
    // After one step only the leaf was priced.
    let early =
        resume.extract_incremental_with(&g, &g.root_eclasses, "node_sum_cost", 0, &seed, &vec![0], &vec![0]);
    assert_eq!(early.get_node(0), Some(0));
    // Y is evicted: it takes its leaf again, and f, which uses it, is
    // priced and found cheaper than X.
    let through =
        resume.extract_incremental_with(&g, &g.root_eclasses, "node_sum_cost", 0, &seed, &vec![1], &vec![0, 0]);
    assert_eq!(through.get_node(0), Some(1));
    // Nothing is evicted: nothing changes.
    let same =
        resume.extract_incremental_with(&g, &g.root_eclasses, "node_sum_cost", 0, &seed, &vec![], &vec![0, 0]);
    assert_eq!(same.get_node(0), Some(0));
    assert_eq!(same.get_node(1), Some(2));
}

#[test]
fn tie_is_taken_when_the_draw_reaches_the_probability() {
    let g = EGraph {
        nodes: vec![node("a", vec![], 0, 3), node("b", vec![], 0, 3)],
        classes: vec![Class { id: 0, nodes: vec![0, 1] }],
        root_eclasses: vec![0],
    };
    let mut seed = ExtractionResult::default();
    seed.choose_node(0, 0);
    let resume = FasterBottomUpExtractorRandomIncremental;
    let taken = resume.extract_incremental_with(
        &g,
        &g.root_eclasses,
        "node_sum_cost",
        500_000,
        &seed,
        &vec![0],
        &vec![0, 500_000],
    );
    assert_eq!(taken.get_node(0), Some(1));
    let left = resume.extract_incremental_with(
        &g,
        &g.root_eclasses,
        "node_sum_cost",
        500_000,
        &seed,
        &vec![0],
        &vec![999_999, 499_999],
    );
    assert_eq!(left.get_node(0), Some(0));
}

#[test]
fn resumed_extraction_by_chance_finds_the_cheaper_node() {
    let (g, seed) = improvable();
    // With two classes one is evicted; whichever it is, f gets priced.
    for _ in 0..20 {
        let next = FasterBottomUpExtractorRandomIncremental.extract_incremental(
            &g,
            &g.root_eclasses,
            "node_sum_cost",
            0,
            &seed,
        );
        assert_eq!(next.get_node(0), Some(1));
        assert_eq!(next.get_node(1), Some(2));
    }
}
