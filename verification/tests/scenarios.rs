use extraction_gym::bottom_up::BottomUpExtractor;
use extraction_gym::extract::Extractor;
use extraction_gym::extraction_result::ExtractionResult;
use extraction_gym::faster_bottom_up::FasterBottomUpExtractorRandom;
use extraction_gym::graph::{Class, EGraph, Node};
use extraction_gym::ilp_cbc::{CbcExtractor, Formulation};
use extraction_gym::incremental::FasterBottomUpExtractorRandomIncremental;
use extraction_gym::search::{
    cheapest, screen_candidates, FasterBottomUpFastSimulatedAnnealingExtractorParallel, Phase,
    Scored, SearchState,
};

fn node(op: &str, children: Vec<usize>, eclass: usize, cost: u64) -> Node {
    Node { op: op.to_string(), children, eclass, cost }
}

fn single_leaf() -> EGraph {
    EGraph {
        nodes: vec![node("x", vec![], 0, 1)],
        classes: vec![Class { id: 0, nodes: vec![0] }],
        root_eclasses: vec![0],
    }
}

/// Class 0 (A) holds n1 = f(B) of cost 5 and n2 = g(B) of cost 2; class 1
/// (B) is a single leaf of cost 1.
fn shared_subexpression() -> EGraph {
    EGraph {
        nodes: vec![node("f", vec![2], 0, 5), node("g", vec![2], 0, 2), node("b", vec![], 1, 1)],
        classes: vec![Class { id: 0, nodes: vec![0, 1] }, Class { id: 1, nodes: vec![2] }],
        root_eclasses: vec![0],
    }
}

#[test]
fn single_leaf_fixed_point() {
    let g = single_leaf();
    let r = BottomUpExtractor.extract(&g, &g.root_eclasses, "node_sum_cost", 0);
    assert_eq!(r.get_node(0), Some(0));
    assert_eq!(r.choices.len(), 1);
    assert_eq!(r.dag_cost(&g, &g.root_eclasses), 1);
    assert_eq!(r.tree_cost(&g, &g.root_eclasses), 1);
    assert!(r.find_cycles(&g, &g.root_eclasses).is_empty());
}

#[test]
fn single_leaf_work_queue() {
    let g = single_leaf();
    let r = FasterBottomUpExtractorRandom.extract(&g, &g.root_eclasses, "node_depth_cost", 0);
    assert_eq!(r.get_node(0), Some(0));
    assert_eq!(r.dag_cost(&g, &g.root_eclasses), 1);
    assert!(r.find_cycles(&g, &g.root_eclasses).is_empty());
}

#[test]
fn shared_subexpression_picks_cheaper_node() {
    let g = shared_subexpression();
    let a = BottomUpExtractor.extract(&g, &g.root_eclasses, "node_sum_cost", 0);
    let b = FasterBottomUpExtractorRandom.extract(&g, &g.root_eclasses, "node_sum_cost", 0);
    for r in [&a, &b] {
        assert_eq!(r.get_node(0), Some(1));
        assert_eq!(r.get_node(1), Some(2));
        assert_eq!(r.dag_cost(&g, &g.root_eclasses), 3);
        assert!(r.find_cycles(&g, &g.root_eclasses).is_empty());
    }
}

#[test]
fn induced_cycle_is_reported() {
    // Class 0 (X) has a node with a child in class 1 (Y), and the other
    // way round; each class also has a leaf.
    let g = EGraph {
        nodes: vec![
            node("f", vec![1], 0, 1),
            node("g", vec![0], 1, 1),
            node("x", vec![], 0, 9),
            node("y", vec![], 1, 9),
        ],
        classes: vec![Class { id: 0, nodes: vec![0, 2] }, Class { id: 1, nodes: vec![1, 3] }],
        root_eclasses: vec![0],
    };
    let mut r = ExtractionResult::default();
    r.choose_node(0, 0);
    r.choose_node(1, 1);
    let cycles = r.find_cycles(&g, &g.root_eclasses);
    assert!(!cycles.is_empty());
    assert!(cycles.iter().all(|c| *c == 0 || *c == 1));
    for extracted in [
        BottomUpExtractor.extract(&g, &g.root_eclasses, "node_sum_cost", 0),
        FasterBottomUpExtractorRandom.extract(&g, &g.root_eclasses, "node_sum_cost", 0),
    ] {
        assert!(extracted.find_cycles(&g, &g.root_eclasses).is_empty());
    }
}

/// The cheapest solution of the program, found by trying every assignment.
fn solve(f: &Formulation) -> Vec<bool> {
    let n = f.model.columns.len();
    let mut best: Option<(u64, Vec<bool>)> = None;
    for bits in 0..(1u32 << n) {
        let x: Vec<bool> = (0..n).map(|c| bits & (1 << c) != 0).collect();
        if f.model.is_solution(&x) {
            let value: u64 = (0..n).filter(|c| x[*c]).map(|c| f.model.columns[c].objective).sum();
            if best.as_ref().map_or(true, |b| value < b.0) {
                best = Some((value, x));
            }
        }
    }
    best.unwrap().1
}

/// A whole search with the DAG cost as the oracle.
fn search(g: &EGraph) -> ExtractionResult {
    let roots = g.root_eclasses.clone();
    let extractor = FasterBottomUpFastSimulatedAnnealingExtractorParallel::new(
        FasterBottomUpExtractorRandomIncremental,
    );
    let base = extractor.baseline(g, &roots, "node_sum_cost", 100_000);
    assert!(base.find_cycles(g, &roots).is_empty());
    let cost = base.dag_cost(g, &roots);
    let mut state = SearchState::start(Scored { result: base, cost }, g, &roots);
    while state.phase() == Phase::Anneal {
        let batch =
            extractor.neighbours(g, &roots, "node_sum_cost", 100_000, &state.current.result, 4);
        let outcomes: Vec<Option<u64>> = batch
            .iter()
            .map(|r| {
                if r.find_cycles(g, &roots).is_empty() {
                    Some(r.dag_cost(g, &roots))
                } else {
                    None
                }
            })
            .collect();
        let kept = screen_candidates(g, &roots, &batch, &outcomes);
        state.step(g, &roots, &kept, cheapest(&kept), false);
    }
    state.finish(g, &roots).result
}

#[test]
fn single_leaf_exact() {
    let g = single_leaf();
    let f = CbcExtractor.formulate(&g, &g.root_eclasses).unwrap();
    let r = CbcExtractor.extract(&g, &g.root_eclasses, &f, &solve(&f)).unwrap();
    assert_eq!(r.get_node(0), Some(0));
    assert_eq!(r.len(), 1);
    assert_eq!(r.dag_cost(&g, &g.root_eclasses), 1);
}

#[test]
fn single_leaf_search() {
    let g = single_leaf();
    let r = search(&g);
    assert_eq!(r.get_node(0), Some(0));
    assert_eq!(r.len(), 1);
    assert_eq!(r.dag_cost(&g, &g.root_eclasses), 1);
}

#[test]
fn shared_subexpression_exact() {
    let g = shared_subexpression();
    let f = CbcExtractor.formulate(&g, &g.root_eclasses).unwrap();
    let r = CbcExtractor.extract(&g, &g.root_eclasses, &f, &solve(&f)).unwrap();
    assert_eq!(r.get_node(0), Some(1));
    assert_eq!(r.dag_cost(&g, &g.root_eclasses), 3);
    assert!(r.find_cycles(&g, &g.root_eclasses).is_empty());
}

#[test]
fn shared_subexpression_search() {
    let g = shared_subexpression();
    let r = search(&g);
    assert_eq!(r.get_node(0), Some(1));
    assert_eq!(r.get_node(1), Some(2));
    assert_eq!(r.dag_cost(&g, &g.root_eclasses), 3);
    assert!(r.find_cycles(&g, &g.root_eclasses).is_empty());
}

#[test]
fn induced_cycle_is_not_returned_by_exact_extraction_or_search() {
    let g = EGraph {
        nodes: vec![
            node("f", vec![1], 0, 1),
            node("g", vec![0], 1, 1),
            node("x", vec![], 0, 9),
            node("y", vec![], 1, 9),
        ],
        classes: vec![Class { id: 0, nodes: vec![0, 2] }, Class { id: 1, nodes: vec![1, 3] }],
        root_eclasses: vec![0],
    };
    let f = CbcExtractor.formulate(&g, &g.root_eclasses).unwrap();
    let exact = CbcExtractor.extract(&g, &g.root_eclasses, &f, &solve(&f)).unwrap();
    assert!(exact.find_cycles(&g, &g.root_eclasses).is_empty());
    for _ in 0..10 {
        let found = search(&g);
        assert!(found.find_cycles(&g, &g.root_eclasses).is_empty());
        assert_eq!(found.dag_cost(&g, &g.root_eclasses), 9);
    }
}
