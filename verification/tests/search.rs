use extraction_gym::extraction_result::ExtractionResult;
use extraction_gym::graph::{Class, EGraph, Node, INFINITY};
use extraction_gym::incremental::FasterBottomUpExtractorRandomIncremental;
use extraction_gym::search::{
    accepts_selected, cheapest, oracle_cost, screen_candidates,
    FasterBottomUpFastSimulatedAnnealingExtractorParallel, Phase, Scored, SearchState,
    HIGH_TEMP_ITERS, TOTAL_ITERS,
};

fn node(op: &str, children: Vec<usize>, eclass: usize, cost: u64) -> Node {
    Node { op: op.to_string(), children, eclass, cost }
}

/// Class 0 (root): f or g, each with a child in class 1, or a leaf.
/// Class 1: h with a child in class 0, or a leaf.
fn graph() -> EGraph {
    EGraph {
        nodes: vec![
            node("f", vec![3], 0, 1),
            node("g", vec![4], 0, 2),
            node("x", vec![], 0, 9),
            node("h", vec![0], 1, 1),
            node("y", vec![], 1, 3),
        ],
        classes: vec![Class { id: 0, nodes: vec![0, 1, 2] }, Class { id: 1, nodes: vec![3, 4] }],
        root_eclasses: vec![0],
    }
}

fn selection(root: usize, other: usize) -> ExtractionResult {
    let mut r = ExtractionResult::default();
    r.choose_node(0, root);
    r.choose_node(1, other);
    r
}

fn scored(root: usize, other: usize, cost: u64) -> Scored {
    Scored { result: selection(root, other), cost }
}

#[test]
fn failed_oracle_call_costs_infinity() {
    assert_eq!(oracle_cost(Some(17)), 17);
    assert_eq!(oracle_cost(Some(0)), 0);
    assert_eq!(oracle_cost(None), INFINITY);
}

#[test]
fn batch_goes_on_without_failed_candidates() {
    let g = graph();
    let results = vec![
        selection(1, 4),
        selection(2, 4),
        selection(1, 4),
        selection(2, 4),
        selection(1, 4),
    ];
    let outcomes = vec![Some(30), None, Some(10), None, Some(20)];
    let kept = screen_candidates(&g, &g.root_eclasses, &results, &outcomes);
    assert_eq!(kept.len(), 3);
    assert_eq!(kept.iter().map(|k| k.cost).collect::<Vec<_>>(), vec![30, 10, 20]);
    for k in &kept {
        assert_eq!(k.result.get_node(0), Some(1));
        assert!(k.result.find_cycles(&g, &g.root_eclasses).is_empty());
    }
    assert_eq!(cheapest(&kept), Some(1));

    let mut state = SearchState::start(scored(2, 4, 40), &g, &g.root_eclasses);
    state.step(&g, &g.root_eclasses, &kept, cheapest(&kept), false);
    let out = state.finish(&g, &g.root_eclasses);
    assert_eq!(out.cost, 10);
    assert_eq!(out.result.get_node(0), Some(1));
    assert!(out.result.find_cycles(&g, &g.root_eclasses).is_empty());
}

#[test]
fn baseline_is_kept_when_every_oracle_call_fails() {
    let g = graph();
    let results = vec![selection(1, 4); 5];
    let outcomes = vec![None; 5];
    let kept = screen_candidates(&g, &g.root_eclasses, &results, &outcomes);
    assert!(kept.is_empty());
    assert_eq!(cheapest(&kept), None);
    let mut state = SearchState::start(scored(2, 4, 40), &g, &g.root_eclasses);
    state.step(&g, &g.root_eclasses, &kept, None, true);
    assert_eq!(state.iteration, 1);
    assert_eq!(state.current.cost, 40);
    assert_eq!(state.current.result.get_node(0), Some(2));
    let out = state.finish(&g, &g.root_eclasses);
    assert_eq!(out.cost, 40);
    assert_eq!(out.result.get_node(0), Some(2));
}

#[test]
fn cyclic_and_unpriced_candidates_are_dropped() {
    let g = graph();
    // f(1) with h(0) is a cycle; the others are fine.
    let results = vec![selection(0, 3), selection(0, 4), selection(2, 3), selection(1, 4)];
    let outcomes = vec![Some(1), Some(5), Some(INFINITY), Some(7)];
    let kept = screen_candidates(&g, &g.root_eclasses, &results, &outcomes);
    assert_eq!(kept.len(), 2);
    assert_eq!(kept[0].cost, 5);
    assert_eq!(kept[0].result.get_node(0), Some(0));
    assert_eq!(kept[0].result.get_node(1), Some(4));
    assert_eq!(kept[1].cost, 7);
    assert_eq!(kept[1].result.get_node(0), Some(1));
}

#[test]
fn cheapest_takes_the_first_of_equals() {
    assert_eq!(cheapest(&vec![]), None);
    assert_eq!(cheapest(&vec![scored(2, 4, 5)]), Some(0));
    assert_eq!(
        cheapest(&vec![scored(2, 4, 5), scored(1, 4, 3), scored(0, 4, 3), scored(2, 4, 4)]),
        Some(1)
    );
}

#[test]
fn acceptance_rule() {
    assert!(accepts_selected(5, 5, false, false));
    assert!(accepts_selected(4, 5, false, false));
    assert!(!accepts_selected(6, 5, false, false));
    assert!(!accepts_selected(6, 5, false, true));
    assert!(!accepts_selected(6, 5, true, false));
    assert!(accepts_selected(6, 5, true, true));
}

#[test]
fn worse_candidate_is_taken_up_only_at_high_temperature() {
    let g = graph();
    let roots = g.root_eclasses.clone();
    let batch = vec![scored(1, 4, 50)];
    let mut state = SearchState::start(scored(2, 4, 40), &g, &roots);
    assert_eq!(state.phase(), Phase::Anneal);
    assert!(state.high_temperature());
    // Not in favour: stays.
    state.step(&g, &roots, &batch, Some(0), false);
    assert_eq!(state.current.cost, 40);
    // In favour at high temperature: taken up, but not the best.
    state.step(&g, &roots, &batch, Some(0), true);
    assert_eq!(state.current.cost, 50);
    assert_eq!(state.current.result.get_node(0), Some(1));
    assert_eq!(state.best.cost, 40);
    assert_eq!(state.best.result.get_node(0), Some(2));
    state.step(&g, &roots, &vec![scored(0, 4, 45)], Some(0), false);
    assert_eq!(state.current.cost, 45);
    assert_eq!(state.iteration, HIGH_TEMP_ITERS);
    assert!(!state.high_temperature());
    // At low temperature a draw in favour changes nothing.
    state.step(&g, &roots, &batch, Some(0), true);
    assert_eq!(state.current.cost, 45);
    state.step(&g, &roots, &vec![scored(1, 4, 30)], Some(0), false);
    assert_eq!(state.current.cost, 30);
    assert_eq!(state.best.cost, 30);
    state.step(&g, &roots, &vec![scored(0, 4, 30)], Some(0), false);
    assert_eq!(state.current.result.get_node(0), Some(0));
    // The best is replaced only by a strictly cheaper selection.
    assert_eq!(state.best.result.get_node(0), Some(1));
    assert_eq!(state.iteration, TOTAL_ITERS);
    assert_eq!(state.phase(), Phase::Done);
    assert_eq!(state.baseline.cost, 40);
    let out = state.finish(&g, &roots);
    assert_eq!(out.cost, 30);
    assert_eq!(out.result.get_node(0), Some(1));
}

#[test]
fn search_never_returns_more_than_the_baseline_costs() {
    let g = graph();
    let roots = g.root_eclasses.clone();
    let mut state = SearchState::start(scored(2, 4, 40), &g, &roots);
    for _ in 0..HIGH_TEMP_ITERS {
        state.step(&g, &roots, &vec![scored(1, 4, 90)], Some(0), true);
    }
    assert_eq!(state.current.cost, 90);
    let out = state.finish(&g, &roots);
    assert_eq!(out.cost, 40);
    assert_eq!(out.result.get_node(0), Some(2));
}

#[test]
fn search_schedule_has_six_rounds_three_of_them_hot() {
    assert_eq!(TOTAL_ITERS, 6);
    assert_eq!(HIGH_TEMP_ITERS, 3);
}

#[test]
fn search_on_a_real_graph_with_a_failing_oracle() {
    let g = graph();
    let roots = g.root_eclasses.clone();
    let search = FasterBottomUpFastSimulatedAnnealingExtractorParallel::new(
        FasterBottomUpExtractorRandomIncremental,
    );
    let base = search.baseline(&g, &roots, "node_sum_cost", 100_000);
    // f costs 1 + 3 through the leaf of class 1, g costs 2 + 3.
    assert_eq!(base.get_node(0), Some(0));
    assert_eq!(base.get_node(1), Some(4));
    let base_cost = base.dag_cost(&g, &roots);
    assert_eq!(base_cost, 4);
    let mut state = SearchState::start(Scored { result: base, cost: base_cost }, &g, &roots);
    let mut round = 0;
    while state.phase() == Phase::Anneal {
        let batch = search.neighbours(&g, &roots, "node_sum_cost", 100_000, &state.current.result, 5);
        assert_eq!(batch.len(), 5);
        // The oracle fails on two of the five calls of every round.
        let outcomes: Vec<Option<u64>> = batch
            .iter()
            .enumerate()
            .map(|(i, r)| {
                if i % 2 == 1 || !r.find_cycles(&g, &roots).is_empty() {
                    None
                } else {
                    Some(r.dag_cost(&g, &roots))
                }
            })
            .collect();
        let kept = screen_candidates(&g, &roots, &batch, &outcomes);
        assert!(kept.len() <= 3);
        state.step(&g, &roots, &kept, cheapest(&kept), round % 2 == 0);
        round += 1;
    }
    assert_eq!(round, TOTAL_ITERS);
    let out = state.finish(&g, &roots);
    assert!(out.cost <= base_cost);
    assert!(out.result.find_cycles(&g, &roots).is_empty());
    assert_eq!(out.result.dag_cost(&g, &roots), out.cost);
}
