//! The decisions of the annealing search: which candidates of a batch are
//! usable, which one is taken up, and what is handed back at the end.
//!
//! The search asks a cost oracle outside the library what a candidate
//! costs, and it draws random numbers against a temperature. Both happen
//! outside; the library is told the outcomes and decides.

use crate::extract::Extractor;
use crate::extraction_result::ExtractionResult;
use crate::faster_bottom_up::{outcome_of_queue, FasterBottomUpExtractorRandom};
use crate::graph::{ClassId, Cost, EGraph, INFINITY};
use crate::cost::CostFunction;
use crate::incremental::{
    default_visit_budget_spec, neighbour_of, outcome_of_resuming, proper,
    FasterBottomUpExtractorRandomIncremental,
};
use vstd::prelude::*;

verus! {

/// The number of rounds of a search.
pub const TOTAL_ITERS: usize = 6;

/// The number of rounds, at the start, in which the temperature counts as
/// high.
pub const HIGH_TEMP_ITERS: usize = 3;

/// The search extractor. It makes its candidates with `base`.
pub struct FasterBottomUpFastSimulatedAnnealingExtractorParallel {
    pub base: FasterBottomUpExtractorRandomIncremental,
}

/// A selection with the cost that the oracle gave it.
pub struct Scored {
    pub result: ExtractionResult,
    pub cost: Cost,
}

/// Where a search stands.
#[derive(Clone, Copy, PartialEq, Eq, Structural, Debug)]
pub enum Phase {
    /// Rounds are left.
    Anneal,
    /// All rounds are done.
    Done,
}

/// The state of a search between two rounds.
pub struct SearchState {
    /// The number of rounds done.
    pub iteration: usize,
    /// The selection that the next candidates start from.
    pub current: Scored,
    /// The cheapest selection that was ever taken up.
    pub best: Scored,
    /// The selection that the search started with.
    pub baseline: Scored,
}

/// The cost that a candidate goes by: what the oracle answered, or
/// [`INFINITY`] if the oracle failed.
pub fn oracle_cost(outcome: Option<Cost>) -> (cost: Cost)
    ensures
        cost == match outcome {
            Some(c) => c,
            None => INFINITY,
        },
{
    match outcome {
        Some(c) => c,
        None => INFINITY,
    }
}

/// Candidate `i` of a batch is usable: the oracle priced it below
/// [`INFINITY`], and it is valid from the roots.
pub open spec fn usable(
    egraph: &EGraph,
    roots: Seq<ClassId>,
    results: Seq<ExtractionResult>,
    outcomes: Seq<Option<Cost>>,
    i: int,
) -> bool {
    &&& outcomes[i] is Some
    &&& outcomes[i]->Some_0 < INFINITY
    &&& results[i].valid_from(egraph, roots)
}

/// The positions of the usable candidates among the first `n` of a batch,
/// in ascending order.
pub open spec fn usable_positions(
    egraph: &EGraph,
    roots: Seq<ClassId>,
    results: Seq<ExtractionResult>,
    outcomes: Seq<Option<Cost>>,
    n: nat,
) -> Seq<int>
    decreases n,
{
    if n == 0 {
        Seq::empty()
    } else {
        let before = usable_positions(egraph, roots, results, outcomes, (n - 1) as nat);
        if usable(egraph, roots, results, outcomes, n - 1) {
            before.push(n - 1)
        } else {
            before
        }
    }
}

/// Every listed position is a position of the batch.
pub proof fn lemma_usable_positions(
    egraph: &EGraph,
    roots: Seq<ClassId>,
    results: Seq<ExtractionResult>,
    outcomes: Seq<Option<Cost>>,
    n: nat,
)
    ensures
        usable_positions(egraph, roots, results, outcomes, n).len() <= n,
        forall|k: int|
            0 <= k < usable_positions(egraph, roots, results, outcomes, n).len() ==> 0 <= (
            #[trigger] usable_positions(egraph, roots, results, outcomes, n)[k]) < n && usable(
                egraph,
                roots,
                results,
                outcomes,
                usable_positions(egraph, roots, results, outcomes, n)[k],
            ),
    decreases n,
{
    if n > 0 {
        lemma_usable_positions(egraph, roots, results, outcomes, (n - 1) as nat);
    }
}

/// All selections of the batch are valid from the roots.
pub open spec fn all_valid_from(egraph: &EGraph, roots: Seq<ClassId>, batch: Seq<Scored>) -> bool {
    forall|k: int| 0 <= k < batch.len() ==> sound(&(#[trigger] batch[k]).result, egraph, roots)
}

/// The selection is valid from the roots, and every choice it holds is a
/// node of its class.
pub open spec fn sound(result: &ExtractionResult, egraph: &EGraph, roots: Seq<ClassId>) -> bool {
    result.valid_from(egraph, roots) && proper(result, egraph)
}

/// Every choice of every selection is a node of its class.
pub open spec fn all_proper(egraph: &EGraph, results: Seq<ExtractionResult>) -> bool {
    forall|i: int| 0 <= i < results.len() ==> proper(#[trigger] &results[i], egraph)
}

/// Keeps the usable candidates of a batch, in their order, each with its
/// cost. A candidate whose oracle call failed, one that the oracle priced
/// at [`INFINITY`], and one that is not valid from the roots (it has a
/// cycle, or a class without a choice) are dropped; the batch goes on
/// without them.
#[verifier::rlimit(60)]
pub fn screen_candidates(
    egraph: &EGraph,
    roots: &[ClassId],
    results: &Vec<ExtractionResult>,
    outcomes: &Vec<Option<Cost>>,
) -> (kept: Vec<Scored>)
    requires
        egraph.well_formed(),
        forall|i: int| 0 <= i < roots@.len() ==> roots@[i] < egraph.classes@.len(),
        results@.len() == outcomes@.len(),
        all_proper(egraph, results@),
    ensures
        kept@.len() == usable_positions(
            egraph,
            roots@,
            results@,
            outcomes@,
            results@.len(),
        ).len(),
        forall|k: int|
            0 <= k < kept@.len() ==> {
                let i = usable_positions(egraph, roots@, results@, outcomes@, results@.len())[k];
                &&& (#[trigger] kept@[k]).result@ == results@[i]@
                &&& kept@[k].cost == outcomes@[i]->Some_0
                &&& kept@[k].cost < INFINITY
            },
        all_valid_from(egraph, roots@, kept@),
        forall|k: int|
            0 <= k < kept@.len() ==> 0 <= (#[trigger] usable_positions(
                egraph,
                roots@,
                results@,
                outcomes@,
                results@.len(),
            )[k]) < results@.len(),
{
    proof {
        lemma_usable_positions(egraph, roots@, results@, outcomes@, results@.len());
    }
    let mut kept: Vec<Scored> = Vec::new();
    let mut i: usize = 0;
    while i < results.len()
        invariant
            i <= results@.len(),
            results@.len() == outcomes@.len(),
            all_proper(egraph, results@),
            egraph.well_formed(),
            forall|r: int| 0 <= r < roots@.len() ==> roots@[r] < egraph.classes@.len(),
            kept@.len() == usable_positions(egraph, roots@, results@, outcomes@, i as nat).len(),
            forall|k: int|
                0 <= k < kept@.len() ==> {
                    let w = usable_positions(egraph, roots@, results@, outcomes@, i as nat)[k];
                    &&& (#[trigger] kept@[k]).result@ == results@[w]@
                    &&& kept@[k].cost == outcomes@[w]->Some_0
                    &&& kept@[k].cost < INFINITY
                },
            all_valid_from(egraph, roots@, kept@),
        decreases results@.len() - i,
    {
        let cost: Cost = oracle_cost(outcomes[i]);
        let ghost before = kept@;
        let ghost positions = usable_positions(egraph, roots@, results@, outcomes@, i as nat);
        if cost < INFINITY {
            let cycles: Vec<ClassId> = results[i].find_cycles(egraph, roots);
            if cycles.len() == 0 {
                let copy: ExtractionResult = results[i].clone();
                proof {
                    assert(proper(&results@[i as int], egraph));
                    lemma_valid_same_choices(&results@[i as int], &copy, egraph, roots@);
                }
                kept.push(Scored { result: copy, cost });
                proof {
                    assert forall|k: int| 0 <= k < kept@.len() implies sound(
                        &(#[trigger] kept@[k]).result,
                        egraph,
                        roots@,
                    ) by {
                        if k < before.len() {
                            assert(kept@[k] == before[k]);
                        }
                    }
                    assert forall|k: int| 0 <= k < kept@.len() implies {
                        let w = usable_positions(
                            egraph,
                            roots@,
                            results@,
                            outcomes@,
                            (i + 1) as nat,
                        )[k];
                        &&& (#[trigger] kept@[k]).result@ == results@[w]@
                        &&& kept@[k].cost == outcomes@[w]->Some_0
                        &&& kept@[k].cost < INFINITY
                    } by {
                        if k < before.len() {
                            assert(kept@[k] == before[k]);
                        }
                    }
                }
            }
        }
        i += 1;
    }
    kept
}

/// Whether a selection is valid from the roots depends on the choices
/// alone.
pub proof fn lemma_valid_same_choices(
    a: &ExtractionResult,
    b: &ExtractionResult,
    egraph: &EGraph,
    roots: Seq<ClassId>,
)
    requires
        a@ == b@,
        a.valid_from(egraph, roots),
    ensures
        b.valid_from(egraph, roots),
        proper(a, egraph) ==> proper(b, egraph),
{
    if proper(a, egraph) {
        assert forall|c: ClassId| #[trigger] b@.contains_key(c) implies b.chosen_ok(egraph, c) by {
            assert(a.chosen_ok(egraph, c));
        }
    }
    let (s, rank) = choose|s: Set<ClassId>, rank: spec_fn(ClassId) -> nat|
        a.witnessed_by(egraph, roots, s, rank);
    assert forall|c: ClassId| #[trigger] s.contains(c) implies b.chosen_ok(egraph, c) by {
        assert(a.chosen_ok(egraph, c));
    }
    assert forall|c: ClassId, k: int|
        s.contains(c) && 0 <= k < b.arity(egraph, c) implies s.contains(
        #[trigger] b.dependency(egraph, c, k),
    ) && rank(b.dependency(egraph, c, k)) < rank(c) by {
        assert(b.dependency(egraph, c, k) == a.dependency(egraph, c, k));
    }
    assert(b.witnessed_by(egraph, roots, s, rank));
}

/// The position of the cheapest selection of a batch, the first one among
/// equals; nothing for an empty batch.
pub fn cheapest(batch: &Vec<Scored>) -> (position: Option<usize>)
    ensures
        batch@.len() == 0 ==> position is None,
        batch@.len() > 0 ==> position is Some,
        position matches Some(p) ==> {
            &&& p < batch@.len()
            &&& forall|k: int| 0 <= k < batch@.len() ==> batch@[p as int].cost <= (#[trigger] batch@[k]).cost
            &&& forall|k: int| 0 <= k < p ==> batch@[p as int].cost < (#[trigger] batch@[k]).cost
        },
{
    if batch.len() == 0 {
        return None;
    }
    let mut p: usize = 0;
    let mut k: usize = 1;
    while k < batch.len()
        invariant
            1 <= k <= batch@.len(),
            p < k,
            forall|w: int| 0 <= w < k ==> batch@[p as int].cost <= (#[trigger] batch@[w]).cost,
            forall|w: int| 0 <= w < p ==> batch@[p as int].cost < (#[trigger] batch@[w]).cost,
        decreases batch@.len() - k,
    {
        if batch[k].cost < batch[p].cost {
            p = k;
        }
        k += 1;
    }
    Some(p)
}

/// Whether the selected candidate is taken up: always if it costs no more
/// than the current selection; if it costs more, only while the temperature
/// is high and the random draw against the temperature came out in its
/// favour.
pub fn accepts_selected(
    selected_cost: Cost,
    current_cost: Cost,
    high_temperature: bool,
    draw_in_favour: bool,
) -> (accept: bool)
    ensures
        accept == (selected_cost <= current_cost || (high_temperature && draw_in_favour)),
{
    selected_cost <= current_cost || (high_temperature && draw_in_favour)
}

impl Scored {
    /// A copy with the same choices and the same cost.
    pub fn duplicate(&self) -> (copy: Scored)
        ensures
            copy.result@ == self.result@,
            copy.cost == self.cost,
    {
        Scored { result: self.result.clone(), cost: self.cost }
    }
}

impl SearchState {
    /// The three selections that the state holds are sound, and no more
    /// rounds were done than a search has.
    pub open spec fn well_formed(&self, egraph: &EGraph, roots: Seq<ClassId>) -> bool {
        &&& self.iteration <= TOTAL_ITERS
        &&& sound(&self.current.result, egraph, roots)
        &&& sound(&self.best.result, egraph, roots)
        &&& sound(&self.baseline.result, egraph, roots)
    }

    /// The state before the first round: the baseline is the current
    /// selection and the best one.
    pub fn start(baseline: Scored, egraph: &EGraph, roots: &[ClassId]) -> (state: SearchState)
        requires
            sound(&baseline.result, egraph, roots@),
        ensures
            state.iteration == 0,
            state.current.result@ == baseline.result@,
            state.best.result@ == baseline.result@,
            state.baseline.result@ == baseline.result@,
            state.current.cost == baseline.cost,
            state.best.cost == baseline.cost,
            state.baseline.cost == baseline.cost,
            state.well_formed(egraph, roots@),
    {
        let current = baseline.duplicate();
        let best = baseline.duplicate();
        proof {
            lemma_valid_same_choices(&baseline.result, &current.result, egraph, roots@);
            lemma_valid_same_choices(&baseline.result, &best.result, egraph, roots@);
        }
        SearchState { iteration: 0, current, best, baseline }
    }

    /// Whether rounds are left.
    pub fn phase(&self) -> (phase: Phase)
        ensures
            phase == if self.iteration < TOTAL_ITERS {
                Phase::Anneal
            } else {
                Phase::Done
            },
    {
        if self.iteration < TOTAL_ITERS {
            Phase::Anneal
        } else {
            Phase::Done
        }
    }

    /// Whether the temperature of the coming round counts as high.
    pub fn high_temperature(&self) -> (high: bool)
        ensures
            high == (self.iteration < HIGH_TEMP_ITERS),
    {
        self.iteration < HIGH_TEMP_ITERS
    }

    /// One round. `selected` is the position of the candidate that was
    /// picked from the batch, or nothing if the batch has no usable
    /// candidate; `draw_in_favour` tells how the random draw against the
    /// temperature came out.
    ///
    /// The picked candidate becomes the current selection if
    /// [`accepts_selected`] says so; without a pick the current selection
    /// stays. The best selection is replaced when the current one is
    /// strictly cheaper.
    #[verifier::rlimit(60)]
    pub fn step(
        &mut self,
        egraph: &EGraph,
        roots: &[ClassId],
        candidates: &Vec<Scored>,
        selected: Option<usize>,
        draw_in_favour: bool,
    )
        requires
            old(self).well_formed(egraph, roots@),
            old(self).iteration < TOTAL_ITERS,
            all_valid_from(egraph, roots@, candidates@),
            selected matches Some(p) ==> p < candidates@.len(),
        ensures
            final(self).well_formed(egraph, roots@),
            final(self).iteration == old(self).iteration + 1,
            final(self).baseline.result@ == old(self).baseline.result@,
            final(self).baseline.cost == old(self).baseline.cost,
            match selected {
                Some(p) if candidates@[p as int].cost <= old(self).current.cost || (old(
                    self,
                ).iteration < HIGH_TEMP_ITERS && draw_in_favour) => {
                    &&& final(self).current.result@ == candidates@[p as int].result@
                    &&& final(self).current.cost == candidates@[p as int].cost
                },
                _ => {
                    &&& final(self).current.result@ == old(self).current.result@
                    &&& final(self).current.cost == old(self).current.cost
                },
            },
            if final(self).current.cost < old(self).best.cost {
                &&& final(self).best.result@ == final(self).current.result@
                &&& final(self).best.cost == final(self).current.cost
            } else {
                &&& final(self).best.result@ == old(self).best.result@
                &&& final(self).best.cost == old(self).best.cost
            },
    {
        let high: bool = self.high_temperature();
        match selected {
            Some(p) => {
                if accepts_selected(candidates[p].cost, self.current.cost, high, draw_in_favour) {
                    let taken = candidates[p].duplicate();
                    proof {
                        lemma_valid_same_choices(
                            &candidates@[p as int].result,
                            &taken.result,
                            egraph,
                            roots@,
                        );
                    }
                    self.current = taken;
                }
            },
            None => {},
        }
        if self.current.cost < self.best.cost {
            let copy = self.current.duplicate();
            proof {
                lemma_valid_same_choices(&self.current.result, &copy.result, egraph, roots@);
            }
            self.best = copy;
        }
        self.iteration += 1;
    }

    /// The outcome of the search: the best selection if it is strictly
    /// cheaper than the baseline, else the baseline. It never costs more
    /// than the baseline.
    pub fn finish(self, egraph: &EGraph, roots: &[ClassId]) -> (out: Scored)
        requires
            self.well_formed(egraph, roots@),
        ensures
            out.cost <= self.baseline.cost,
            out.cost <= self.best.cost,
            self.best.cost < self.baseline.cost ==> out.result@ == self.best.result@ && out.cost
                == self.best.cost,
            self.best.cost >= self.baseline.cost ==> out.result@ == self.baseline.result@
                && out.cost == self.baseline.cost,
            sound(&out.result, egraph, roots@),
    {
        if self.best.cost < self.baseline.cost {
            self.best
        } else {
            self.baseline
        }
    }
}

impl FasterBottomUpFastSimulatedAnnealingExtractorParallel {
    /// A search extractor that makes its candidates with `base`.
    pub fn new(base: FasterBottomUpExtractorRandomIncremental) -> (extractor: Self)
        ensures
            extractor.base == base,
    {
        Self { base }
    }

    /// The first step of a search: the selection of the work-queue
    /// extractor, which involves no chance. It is a cheapest selection and
    /// has no cycle; the search falls back on it.
    pub fn baseline(
        &self,
        egraph: &EGraph,
        roots: &[ClassId],
        cost_function: &str,
        random_prob: u32,
    ) -> (result: ExtractionResult)
        requires
            egraph.well_formed(),
            CostFunction::named(cost_function@) is Some,
        ensures
            result.optimal_for(CostFunction::named(cost_function@)->Some_0, egraph),
            result.acyclic(egraph),
            proper(&result, egraph),
            outcome_of_queue(CostFunction::named(cost_function@)->Some_0, egraph, result@),
    {
        let result = FasterBottomUpExtractorRandom.extract(
            egraph,
            roots,
            cost_function,
            random_prob,
        );
        assert(proper(&result, egraph)) by {
            assert forall|c: ClassId| #[trigger] result@.contains_key(c) implies result.chosen_ok(
                egraph,
                c,
            ) by {
                assert(result@.dom().contains(c));
            }
        }
        result
    }

    /// The candidates of one round: `num_samples` neighbours of `current`,
    /// each made by a resumed extraction of its own.
    pub fn neighbours(
        &self,
        egraph: &EGraph,
        roots: &[ClassId],
        cost_function: &str,
        random_prob: u32,
        current: &ExtractionResult,
        num_samples: u32,
    ) -> (batch: Vec<ExtractionResult>)
        requires
            egraph.well_formed(),
            CostFunction::named(cost_function@) is Some,
            proper(current, egraph),
        ensures
            batch@.len() == num_samples,
            forall|i: int|
                0 <= i < batch@.len() ==> neighbour_of(#[trigger] &batch@[i], current, egraph),
            all_proper(egraph, batch@),
            forall|i: int|
                0 <= i < batch@.len() ==> outcome_of_resuming(
                    CostFunction::named(cost_function@)->Some_0,
                    egraph,
                    random_prob,
                    current,
                    default_visit_budget_spec(egraph.nodes@.len()),
                    (#[trigger] batch@[i])@,
                ),
    {
        let mut batch: Vec<ExtractionResult> = Vec::new();
        let mut i: u32 = 0;
        while i < num_samples
            invariant
                i <= num_samples,
                egraph.well_formed(),
                CostFunction::named(cost_function@) is Some,
                proper(current, egraph),
                batch@.len() == i,
                forall|w: int|
                    0 <= w < batch@.len() ==> neighbour_of(#[trigger] &batch@[w], current, egraph),
                forall|w: int|
                    0 <= w < batch@.len() ==> outcome_of_resuming(
                        CostFunction::named(cost_function@)->Some_0,
                        egraph,
                        random_prob,
                        current,
                        default_visit_budget_spec(egraph.nodes@.len()),
                        (#[trigger] batch@[w])@,
                    ),
            decreases num_samples - i,
        {
            let candidate = self.base.extract_incremental(
                egraph,
                roots,
                cost_function,
                random_prob,
                current,
            );
            let ghost before = batch@;
            batch.push(candidate);
            proof {
                assert forall|w: int| 0 <= w < batch@.len() implies neighbour_of(
                    #[trigger] &batch@[w],
                    current,
                    egraph,
                ) by {
                    if w < before.len() {
                        assert(batch@[w] == before[w]);
                    }
                }
                assert forall|w: int| 0 <= w < batch@.len() implies outcome_of_resuming(
                    CostFunction::named(cost_function@)->Some_0,
                    egraph,
                    random_prob,
                    current,
                    default_visit_budget_spec(egraph.nodes@.len()),
                    (#[trigger] batch@[w])@,
                ) by {
                    if w < before.len() {
                        assert(batch@[w] == before[w]);
                    }
                }
            }
            i += 1;
        }
        batch
    }
}

} // verus!
