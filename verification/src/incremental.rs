//! Resumed extraction: starting from an earlier selection, forget the cost
//! of a few classes at random and propagate again from there. The outcome
//! is a neighbour of the earlier selection.

use crate::cost::{cost_or_infinity, known_cost, node_cost, CostFunction};
use crate::extraction_result::ExtractionResult;
use crate::fx_tables::{costs_insert, costs_len, costs_new, costs_remove};
use crate::graph::{ClassId, Cost, EGraph, Node, NodeId, INFINITY};
use crate::random::{random_draw, sample_positions, PROBABILITY_SCALE};
use crate::unique_queue::{extended, lemma_extended_contains, UniqueQueue};
use crate::worklist::{
    all_listed, build_parents, listed_node, parents_exact, parents_ok, users,
};
use rustc_hash::FxHashMap;
use vstd::prelude::*;

verus! {

/// Extraction that resumes from an earlier selection.
pub struct FasterBottomUpExtractorRandomIncremental;

/// How many nodes a resumed extraction prices, at most, for each node of
/// the graph.
pub const VISITS_PER_NODE: usize = 64;

/// Every class with a choice has the choice among its own nodes.
pub open spec fn proper(result: &ExtractionResult, egraph: &EGraph) -> bool {
    forall|c: ClassId| #[trigger] result@.contains_key(c) ==> result.chosen_ok(egraph, c)
}

/// `after` came from `before` by propagation: no class lost its choice,
/// every choice is a node of its class, and every choice that is new or
/// changed is a node that its class lists.
pub open spec fn neighbour_of(
    after: &ExtractionResult,
    before: &ExtractionResult,
    egraph: &EGraph,
) -> bool {
    &&& forall|c: ClassId| #[trigger] before@.contains_key(c) ==> after@.contains_key(c)
    &&& proper(after, egraph)
    &&& forall|c: ClassId| #[trigger]
        after@.contains_key(c) ==> (before@.contains_key(c) && before@[c] == after@[c])
            || listed_node(egraph, after@[c])
}

/// The choices, the class costs and the queue at some moment of a resumed
/// extraction.
pub type ResumeProgress = (Map<ClassId, NodeId>, Map<ClassId, Cost>, Seq<NodeId>);

/// The class costs after the first `i` choices were priced, each by its
/// chosen node and with the costs found before it.
pub open spec fn seeded(
    cf: CostFunction,
    egraph: &EGraph,
    entries: Seq<(ClassId, NodeId)>,
    i: nat,
) -> Map<ClassId, Cost>
    decreases i,
{
    if i == 0 {
        Map::empty()
    } else {
        let before = seeded(cf, egraph, entries, (i - 1) as nat);
        before.insert(
            entries[i - 1].0,
            node_cost(cf, egraph, &egraph.nodes@[entries[i - 1].1 as int], before),
        )
    }
}

/// The class costs and the queue after the classes at the first `p` picked
/// positions lost their cost. The nodes of each such class are queued, so
/// that the class is priced again, and after them the nodes that use the
/// class.
pub open spec fn evicted(
    egraph: &EGraph,
    entries: Seq<(ClassId, NodeId)>,
    costs: Map<ClassId, Cost>,
    picked: Seq<usize>,
    p: nat,
) -> (Map<ClassId, Cost>, Seq<NodeId>)
    decreases p,
{
    if p == 0 {
        (costs, Seq::empty())
    } else {
        let before = evicted(egraph, entries, costs, picked, (p - 1) as nat);
        let c = entries[picked[p - 1] as int].0;
        (
            before.0.remove(c),
            extended(
                extended(before.1, egraph.classes@[c as int].nodes@),
                users(egraph, c, egraph.classes@.len()),
            ),
        )
    }
}

/// One step of a resumed extraction: the node at the front of the queue
/// leaves it and is priced, a child whose class has no cost counting as
/// [`INFINITY`]; if [`accepts`] takes it with this `draw` (as it does
/// whenever its class has no finite cost), its class takes it and the
/// nodes that use the class are queued. With an empty queue nothing
/// happens.
pub open spec fn resume_step(
    cf: CostFunction,
    egraph: &EGraph,
    random_prob: u32,
    state: ResumeProgress,
    draw: u32,
) -> ResumeProgress {
    if state.2.len() == 0 {
        state
    } else {
        let q = state.2[0];
        let rest = state.2.drop_first();
        let c = egraph.nodes@[q as int].eclass;
        let new_cost = node_cost(cf, egraph, &egraph.nodes@[q as int], state.1);
        let old_cost = cost_or_infinity(state.1, c);
        if old_cost == INFINITY || new_cost < old_cost || (new_cost == old_cost && draw
            >= random_prob) {
            (
                state.0.insert(c, q),
                state.1.insert(c, new_cost),
                extended(rest, users(egraph, c, egraph.classes@.len())),
            )
        } else {
            (state.0, state.1, rest)
        }
    }
}

/// The state in which a resumed extraction from `prev` starts when the
/// positions `picked` are evicted: the choices of `prev`, the costs of its
/// classes less those of the evicted ones, and the nodes that use the
/// evicted classes in the queue.
pub open spec fn resume_start(
    cf: CostFunction,
    egraph: &EGraph,
    prev: &ExtractionResult,
    picked: Seq<usize>,
) -> ResumeProgress {
    let entries = prev.entries();
    let out = evicted(egraph, entries, seeded(cf, egraph, entries, entries.len()), picked, picked.len());
    (prev@, out.0, out.1)
}

/// The state after `k` steps from `start`, step `i` taken with draw `i`.
pub open spec fn resumed(
    cf: CostFunction,
    egraph: &EGraph,
    random_prob: u32,
    start: ResumeProgress,
    draws: Seq<u32>,
    k: nat,
) -> ResumeProgress
    decreases k,
{
    if k == 0 {
        start
    } else {
        resume_step(
            cf,
            egraph,
            random_prob,
            resumed(cf, egraph, random_prob, start, draws, (k - 1) as nat),
            draws[k - 1],
        )
    }
}

/// `choices` is what a resumed extraction from `prev` ends with when chance
/// picks the positions `picked` for eviction and makes the draws `draws`:
/// one draw for each node taken from the queue, until the queue is empty or
/// `max_visits` nodes were taken.
pub open spec fn resumed_with(
    cf: CostFunction,
    egraph: &EGraph,
    random_prob: u32,
    prev: &ExtractionResult,
    max_visits: usize,
    choices: Map<ClassId, NodeId>,
    picked: Seq<usize>,
    draws: Seq<u32>,
) -> bool {
    let entries = prev.entries();
    let costs = seeded(cf, egraph, entries, entries.len());
    let wanted: nat = if costs.len() / 10 >= 1 {
        costs.len() / 10
    } else {
        1
    };
    let end = resumed(
        cf,
        egraph,
        random_prob,
        resume_start(cf, egraph, prev, picked),
        draws,
        draws.len(),
    );
    &&& picked.len() == if wanted <= entries.len() {
        wanted
    } else {
        entries.len()
    }
    &&& forall|w: int| 0 <= w < picked.len() ==> #[trigger] picked[w] < entries.len()
    &&& forall|w: int| 0 <= w < draws.len() ==> #[trigger] draws[w] < PROBABILITY_SCALE
    &&& draws.len() <= max_visits
    &&& end.0 == choices
    &&& draws.len() == max_visits || end.2.len() == 0
}

/// `choices` is a possible outcome of a resumed extraction from `prev`.
pub open spec fn outcome_of_resuming(
    cf: CostFunction,
    egraph: &EGraph,
    random_prob: u32,
    prev: &ExtractionResult,
    max_visits: usize,
    choices: Map<ClassId, NodeId>,
) -> bool {
    exists|picked: Seq<usize>, draws: Seq<u32>|
        resumed_with(cf, egraph, random_prob, prev, max_visits, choices, picked, draws)
}

/// Steps that were taken stay as they were when more draws follow.
pub proof fn lemma_resumed_prefix(
    cf: CostFunction,
    egraph: &EGraph,
    random_prob: u32,
    start: ResumeProgress,
    draws: Seq<u32>,
    more: Seq<u32>,
    k: nat,
)
    requires
        k <= draws.len() <= more.len(),
        forall|i: int| 0 <= i < draws.len() ==> more[i] == draws[i],
    ensures
        resumed(cf, egraph, random_prob, start, more, k) == resumed(
            cf,
            egraph,
            random_prob,
            start,
            draws,
            k,
        ),
    decreases k,
{
    if k > 0 {
        lemma_resumed_prefix(cf, egraph, random_prob, start, draws, more, (k - 1) as nat);
    }
}

/// Once the queue is empty, further steps change nothing.
pub proof fn lemma_resumed_stays(
    cf: CostFunction,
    egraph: &EGraph,
    random_prob: u32,
    start: ResumeProgress,
    draws: Seq<u32>,
    k: nat,
    m: nat,
)
    requires
        resumed(cf, egraph, random_prob, start, draws, k).2.len() == 0,
        k <= m,
    ensures
        resumed(cf, egraph, random_prob, start, draws, m) == resumed(
            cf,
            egraph,
            random_prob,
            start,
            draws,
            k,
        ),
    decreases m,
{
    if k < m {
        lemma_resumed_stays(cf, egraph, random_prob, start, draws, k, (m - 1) as nat);
    }
}

/// The number of classes whose cost is forgotten before a resumed
/// extraction: a tenth of the classes with a cost, but at least one.
pub fn eviction_count(decided: usize) -> (count: usize)
    ensures
        count == if decided / 10 >= 1 {
            decided / 10
        } else {
            1
        },
{
    let tenth: usize = decided / 10;
    if tenth >= 1 {
        tenth
    } else {
        1
    }
}

/// Whether a node priced at `new_cost` replaces the choice of a class that
/// costs `old_cost`: always if the class has no finite cost or the node is
/// strictly cheaper; on a tie if `draw` is at least `random_prob`, so that
/// a tie is taken with probability `1 - random_prob / PROBABILITY_SCALE`
/// for a `draw` that is uniform below the scale.
pub fn accepts(old_cost: Cost, new_cost: Cost, draw: u32, random_prob: u32) -> (accept: bool)
    ensures
        accept == (old_cost == INFINITY || new_cost < old_cost || (new_cost == old_cost && draw
            >= random_prob)),
{
    old_cost == INFINITY || new_cost < old_cost || (new_cost == old_cost && draw >= random_prob)
}

/// The largest number of nodes that a resumed extraction prices on a graph
/// with `nodes` nodes: [`VISITS_PER_NODE`] for each node, as far as `usize`
/// reaches.
pub open spec fn default_visit_budget_spec(nodes: nat) -> usize {
    if nodes * VISITS_PER_NODE <= usize::MAX {
        (nodes * VISITS_PER_NODE) as usize
    } else {
        usize::MAX
    }
}

/// The largest number of nodes that a resumed extraction prices on a graph
/// with `nodes` nodes.
pub fn default_visit_budget(nodes: usize) -> (budget: usize)
    ensures
        budget == default_visit_budget_spec(nodes as nat),
{
    if nodes <= usize::MAX / VISITS_PER_NODE {
        nodes * VISITS_PER_NODE
    } else {
        usize::MAX
    }
}

impl FasterBottomUpExtractorRandomIncremental {
    /// A neighbour of `prev`, with the default limit on the work.
    ///
    /// What the outcome is depends on chance; see
    /// [`Self::extract_incremental_within`] for what holds of every
    /// outcome.
    pub fn extract_incremental(
        &self,
        egraph: &EGraph,
        roots: &[ClassId],
        cost_fn: &str,
        random_prob: u32,
        prev: &ExtractionResult,
    ) -> (result: ExtractionResult)
        requires
            egraph.well_formed(),
            CostFunction::named(cost_fn@) is Some,
            proper(prev, egraph),
        ensures
            neighbour_of(&result, prev, egraph),
            exists|budget: usize|
                budget == default_visit_budget_spec(egraph.nodes@.len()) && outcome_of_resuming(
                    CostFunction::named(cost_fn@)->Some_0,
                    egraph,
                    random_prob,
                    prev,
                    budget,
                    result@,
                ),
    {
        let budget: usize = default_visit_budget(egraph.nodes.len());
        self.extract_incremental_within(egraph, roots, cost_fn, random_prob, prev, budget)
    }

    /// A neighbour of `prev`, made by pricing at most `max_visits` nodes.
    ///
    /// Every class with a choice in `prev` is priced by its chosen node, in
    /// the order of the choices and with the prices found so far. Then a
    /// tenth of these classes (at least one), picked at random, lose their
    /// price, and their nodes and the nodes that use them are queued. A node
    /// taken from the
    /// queue is priced and replaces the choice of its class if [`accepts`]
    /// says so, with a fresh random draw on a tie, and then the nodes that
    /// use the class are queued. The work ends when the queue is empty or
    /// `max_visits` nodes were taken from it.
    ///
    /// The outcome may contain a cycle: check it with
    /// [`ExtractionResult::find_cycles`] before use.
    pub fn extract_incremental_within(
        &self,
        egraph: &EGraph,
        _roots: &[ClassId],
        cost_fn: &str,
        random_prob: u32,
        prev: &ExtractionResult,
        max_visits: usize,
    ) -> (result: ExtractionResult)
        requires
            egraph.well_formed(),
            CostFunction::named(cost_fn@) is Some,
            proper(prev, egraph),
        ensures
            neighbour_of(&result, prev, egraph),
            max_visits == 0 ==> result@ == prev@,
            outcome_of_resuming(
                CostFunction::named(cost_fn@)->Some_0,
                egraph,
                random_prob,
                prev,
                max_visits,
                result@,
            ),
    {
        let cf: CostFunction = CostFunction::from_name(cost_fn).unwrap();
        let out = resume(egraph, cf, random_prob, prev, None, None, max_visits);
        out.0
    }

    /// The neighbour of `prev` that comes out when chance picks the
    /// positions `picked` for eviction and makes the draws `draws`, one for
    /// each node taken from the queue: the outcome of
    /// [`Self::extract_incremental_within`] with chance taken out. As many
    /// nodes are taken from the queue as there are draws, unless the queue
    /// runs empty before.
    pub fn extract_incremental_with(
        &self,
        egraph: &EGraph,
        _roots: &[ClassId],
        cost_fn: &str,
        random_prob: u32,
        prev: &ExtractionResult,
        picked: &Vec<usize>,
        draws: &Vec<u32>,
    ) -> (result: ExtractionResult)
        requires
            egraph.well_formed(),
            CostFunction::named(cost_fn@) is Some,
            proper(prev, egraph),
            forall|w: int| 0 <= w < picked@.len() ==> #[trigger] picked@[w] < prev.entries().len(),
        ensures
            neighbour_of(&result, prev, egraph),
            result@ == resumed(
                CostFunction::named(cost_fn@)->Some_0,
                egraph,
                random_prob,
                resume_start(CostFunction::named(cost_fn@)->Some_0, egraph, prev, picked@),
                draws@,
                draws@.len(),
            ).0,
    {
        let cf: CostFunction = CostFunction::from_name(cost_fn).unwrap();
        let out = resume(egraph, cf, random_prob, prev, Some(picked), Some(draws), draws.len());
        out.0
    }
}

/// The work of a resumed extraction. Where `given_picks` or `given_draws`
/// is nothing, chance decides in its place. Returns the outcome with the
/// picks and draws that led to it.
#[verifier::rlimit(60)]
fn resume(
    egraph: &EGraph,
    cf: CostFunction,
    random_prob: u32,
    prev: &ExtractionResult,
    given_picks: Option<&Vec<usize>>,
    given_draws: Option<&Vec<u32>>,
    max_visits: usize,
) -> (out: (ExtractionResult, Ghost<Seq<usize>>, Ghost<Seq<u32>>))
    requires
        egraph.well_formed(),
        proper(prev, egraph),
        given_picks matches Some(picks) ==> forall|w: int|
            0 <= w < picks@.len() ==> #[trigger] picks@[w] < prev.entries().len(),
        given_draws matches Some(d) ==> max_visits == d@.len(),
    ensures
        neighbour_of(&out.0, prev, egraph),
        max_visits == 0 ==> out.0@ == prev@,
        given_picks matches Some(picks) ==> out.1@ == picks@,
        given_picks is None && given_draws is None ==> outcome_of_resuming(
            cf,
            egraph,
            random_prob,
            prev,
            max_visits,
            out.0@,
        ),
        out.2@.len() <= max_visits,
        out.0@ == resumed(
            cf,
            egraph,
            random_prob,
            resume_start(cf, egraph, prev, out.1@),
            out.2@,
            out.2@.len(),
        ).0,
        given_draws matches Some(d) ==> out.0@ == resumed(
            cf,
            egraph,
            random_prob,
            resume_start(cf, egraph, prev, out.1@),
            d@,
            d@.len(),
        ).0,
{
    let parents: Vec<Vec<NodeId>> = build_parents(egraph);
    let mut result: ExtractionResult = prev.clone();
    let mut costs: FxHashMap<ClassId, Cost> = costs_new();
    let decided: usize = prev.len();
    let mut i: usize = 0;
    while i < decided
        invariant
            i <= decided,
            decided == prev.entries().len(),
            egraph.well_formed(),
            proper(prev, egraph),
            result@ == prev@,
            costs@ == seeded(cf, egraph, prev.entries(), i as nat),
        decreases decided - i,
    {
        let (cid, nid) = prev.get_index(i).unwrap();
        assert(prev.chosen_ok(egraph, cid));
        let node: &Node = &egraph.nodes[nid];
        assert(egraph.node_ok(nid as int));
        let c: Cost = result.node_cost_by(cf, egraph, node, &costs);
        costs_insert(&mut costs, cid, c);
        i += 1;
    }
    let ghost seeded_all = costs@;
    let sampled: Vec<usize>;
    let picked: &Vec<usize> = match given_picks {
        Some(picks) => picks,
        None => {
            let wanted: usize = eviction_count(costs_len(&costs));
            let amount: usize = if wanted <= decided {
                wanted
            } else {
                decided
            };
            sampled = sample_positions(decided, amount);
            &sampled
        },
    };
    let ghost wanted: nat = if seeded_all.len() / 10 >= 1 {
        seeded_all.len() / 10
    } else {
        1
    };
    let ghost sampled_ok = given_picks is None ==> picked@.len() == if wanted <= decided {
        wanted
    } else {
        decided as nat
    };
    assert(sampled_ok);
    let mut queue: UniqueQueue = UniqueQueue::default();
    let mut p: usize = 0;
    while p < picked.len()
        invariant
            p <= picked@.len(),
            decided == prev.entries().len(),
            forall|w: int| 0 <= w < picked@.len() ==> #[trigger] picked@[w] < decided,
            egraph.well_formed(),
            proper(prev, egraph),
            parents_ok(egraph, parents@),
            parents_exact(egraph, parents@),
            queue.well_formed(),
            all_listed(egraph, queue@),
            result@ == prev@,
            (costs@, queue@) == evicted(egraph, prev.entries(), seeded_all, picked@, p as nat),
        decreases picked@.len() - p,
    {
        let (cid, _) = prev.get_index(picked[p]).unwrap();
        assert(prev.chosen_ok(egraph, cid));
        assert(egraph.node_ok(prev@[cid] as int));
        costs_remove(&mut costs, cid);
        let ghost before = queue@;
        queue.extend(&egraph.classes[cid].nodes);
        let ghost between = queue@;
        queue.extend(&parents[cid]);
        proof {
            assert(egraph.class_ok(cid as int));
            assert forall|j: int| 0 <= j < egraph.classes@[cid as int].nodes@.len() implies listed_node(
                egraph,
                #[trigger] egraph.classes@[cid as int].nodes@[j],
            ) by {
                assert(egraph.member_ok(cid as int, j));
            }
            lemma_queue_extended_listed(egraph, before, egraph.classes@[cid as int].nodes@);
            lemma_queue_extended_listed(egraph, between, parents@[cid as int]@);
        }
        p += 1;
    }
    let mut visits: usize = 0;
    let ghost start: ResumeProgress = (prev@, costs@, queue@);
    let ghost mut draws: Seq<u32> = Seq::empty();
    assert(start == resume_start(cf, egraph, prev, picked@));
    while visits < max_visits && !queue.is_empty()
        invariant
            visits <= max_visits,
            egraph.well_formed(),
            proper(prev, egraph),
            parents_ok(egraph, parents@),
            parents_exact(egraph, parents@),
            given_draws matches Some(d) ==> max_visits == d@.len() && forall|w: int|
                0 <= w < visits ==> #[trigger] draws[w] == d@[w],
            draws.len() == visits,
            given_draws is None ==> forall|w: int|
                0 <= w < draws.len() ==> #[trigger] draws[w] < PROBABILITY_SCALE,
            (result@, costs@, queue@) == resumed(
                cf,
                egraph,
                random_prob,
                start,
                draws,
                visits as nat,
            ),
            queue.well_formed(),
            all_listed(egraph, queue@),
            neighbour_of(&result, prev, egraph),
            visits == 0 ==> result@ == prev@,
        decreases max_visits - visits,
    {
        let ghost queue_before = queue@;
        let ghost state_before: ResumeProgress = (result@, costs@, queue@);
        let ghost draws_before = draws;
        let nid: NodeId = queue.pop().unwrap();
        assert(listed_node(egraph, queue_before[0]));
        assert forall|w: int| 0 <= w < queue@.len() implies listed_node(
            egraph,
            #[trigger] queue@[w],
        ) by {
            assert(queue@[w] == queue_before[w + 1]);
        }
        let cid: ClassId = egraph.nid_to_cid(nid);
        let node: &Node = &egraph.nodes[nid];
        assert(egraph.node_ok(nid as int));
        let new_cost: Cost = result.node_cost_by(cf, egraph, node, &costs);
        let old_cost: Cost = known_cost(&costs, cid);
        let draw: u32 = match given_draws {
            Some(d) => d[visits],
            None => {
                if new_cost == old_cost && old_cost != INFINITY {
                    random_draw()
                } else {
                    0
                }
            },
        };
        if accepts(old_cost, new_cost, draw, random_prob) {
            let ghost chosen_before = result;
            result.choose_node(cid, nid);
            costs_insert(&mut costs, cid, new_cost);
            let ghost before = queue@;
            queue.extend(&parents[cid]);
            proof {
                lemma_queue_extended_listed(egraph, before, parents@[cid as int]@);
                assert forall|c: ClassId| #[trigger] result@.contains_key(c) implies result.chosen_ok(
                    egraph,
                    c,
                ) by {
                    if c != cid {
                        assert(chosen_before.chosen_ok(egraph, c));
                    }
                }
            }
        }
        proof {
            draws = draws_before.push(draw);
            lemma_resumed_prefix(
                cf,
                egraph,
                random_prob,
                start,
                draws_before,
                draws,
                visits as nat,
            );
            assert((result@, costs@, queue@) == resume_step(
                cf,
                egraph,
                random_prob,
                state_before,
                draw,
            ));
        }
        visits += 1;
    }
    proof {
        match given_draws {
            Some(d) => {
                lemma_resumed_prefix(cf, egraph, random_prob, start, draws, d@, visits as nat);
                if visits < max_visits {
                    lemma_resumed_stays(
                        cf,
                        egraph,
                        random_prob,
                        start,
                        d@,
                        visits as nat,
                        d@.len(),
                    );
                }
            },
            None => {},
        }
        if given_picks is None && given_draws is None {
            assert(sampled_ok);
            assert(seeded_all == seeded(cf, egraph, prev.entries(), prev.entries().len()));
            assert(resumed_with(cf, egraph, random_prob, prev, max_visits, result@, picked@, draws));
        }
    }
    (result, Ghost(picked@), Ghost(draws))
}

/// Queueing listed nodes behind listed nodes leaves only listed nodes in
/// the queue.
pub proof fn lemma_queue_extended_listed(egraph: &EGraph, queue: Seq<NodeId>, items: Seq<NodeId>)
    requires
        all_listed(egraph, queue),
        all_listed(egraph, items),
    ensures
        all_listed(egraph, crate::unique_queue::extended(queue, items)),
{
    let after = crate::unique_queue::extended(queue, items);
    lemma_extended_contains(queue, items);
    assert forall|i: int| 0 <= i < after.len() implies listed_node(egraph, #[trigger] after[i]) by {
        let y = after[i];
        assert(after.contains(y));
        if queue.contains(y) {
            let w = choose|w: int| 0 <= w < queue.len() && queue[w] == y;
            assert(listed_node(egraph, queue[w]));
        } else {
            let w = choose|w: int| 0 <= w < items.len() && items[w] == y;
            assert(listed_node(egraph, items[w]));
        }
    }
}

} // verus!
