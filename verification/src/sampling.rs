//! Random variations of a selection: some classes take a node picked at
//! random in place of their chosen one.

use crate::extraction_result::ExtractionResult;
use crate::graph::{Class, ClassId, EGraph, NodeId};
use crate::random::{random_draw, random_position, PROBABILITY_SCALE};
use vstd::prelude::*;

verus! {

/// Whether a class takes a node picked at random: if the draw is at most
/// `random_ratio` and the class has more than one node to pick from.
pub fn takes_random_node(draw: u32, random_ratio: u32, class_size: usize) -> (random: bool)
    ensures
        random == (draw <= random_ratio && class_size > 1),
{
    draw <= random_ratio && class_size > 1
}

/// `varied` has a choice for the same classes as `base`, and each choice is
/// that of `base` or a node that the class lists.
pub open spec fn variation_of(
    varied: &ExtractionResult,
    base: &ExtractionResult,
    egraph: &EGraph,
) -> bool {
    &&& varied@.dom() == base@.dom()
    &&& forall|c: ClassId| #[trigger]
        varied@.contains_key(c) ==> varied@[c] == base@[c] || exists|j: int|
            0 <= j < egraph.classes@[c as int].nodes@.len()
                && #[trigger] egraph.classes@[c as int].nodes@[j] == varied@[c]
}

/// The choices after the first `i` choices of a selection with the entries
/// `entries` were varied: choice `w` takes the node at position
/// `positions[w]` of its class if [`takes_random_node`] says so of
/// `draws[w]`, and stays as it is otherwise.
pub open spec fn varied_with(
    egraph: &EGraph,
    entries: Seq<(ClassId, NodeId)>,
    random_ratio: u32,
    draws: Seq<u32>,
    positions: Seq<usize>,
    i: nat,
) -> Map<ClassId, NodeId>
    decreases i,
{
    if i == 0 {
        Map::empty()
    } else {
        let before = varied_with(egraph, entries, random_ratio, draws, positions, (i - 1) as nat);
        let c = entries[i - 1].0;
        let nodes = egraph.classes@[c as int].nodes@;
        before.insert(
            c,
            if draws[i - 1] <= random_ratio && nodes.len() > 1 {
                nodes[positions[i - 1] as int]
            } else {
                entries[i - 1].1
            },
        )
    }
}

/// `choices` is a possible outcome of varying `base`: there are draws below
/// the scale and positions within the classes, one of each for every
/// choice, that lead to it.
pub open spec fn outcome_of_varying(
    egraph: &EGraph,
    base: &ExtractionResult,
    random_ratio: u32,
    choices: Map<ClassId, NodeId>,
) -> bool {
    exists|draws: Seq<u32>, positions: Seq<usize>|
        #![trigger varied_with(egraph, base.entries(), random_ratio, draws, positions, base.entries().len())]
        {
            &&& draws.len() == base.entries().len()
            &&& positions.len() == base.entries().len()
            &&& forall|w: int| 0 <= w < draws.len() ==> #[trigger] draws[w] < PROBABILITY_SCALE
            &&& forall|w: int|
                0 <= w < positions.len() ==> #[trigger] positions[w]
                    < egraph.classes@[base.entries()[w].0 as int].nodes@.len()
            &&& choices == varied_with(
                egraph,
                base.entries(),
                random_ratio,
                draws,
                positions,
                base.entries().len(),
            )
        }
}

/// What was varied stays as it was when more draws and positions follow.
pub proof fn lemma_varied_prefix(
    egraph: &EGraph,
    entries: Seq<(ClassId, NodeId)>,
    random_ratio: u32,
    draws: Seq<u32>,
    positions: Seq<usize>,
    more_draws: Seq<u32>,
    more_positions: Seq<usize>,
    i: nat,
)
    requires
        i <= draws.len() <= more_draws.len(),
        i <= positions.len() <= more_positions.len(),
        forall|w: int| 0 <= w < i ==> more_draws[w] == draws[w],
        forall|w: int| 0 <= w < i ==> more_positions[w] == positions[w],
    ensures
        varied_with(egraph, entries, random_ratio, more_draws, more_positions, i) == varied_with(
            egraph,
            entries,
            random_ratio,
            draws,
            positions,
            i,
        ),
    decreases i,
{
    if i > 0 {
        lemma_varied_prefix(
            egraph,
            entries,
            random_ratio,
            draws,
            positions,
            more_draws,
            more_positions,
            (i - 1) as nat,
        );
    }
}

impl ExtractionResult {
    /// A random variation of `base`: for each class with a choice, in the
    /// order of the choices, a number is drawn; if [`takes_random_node`]
    /// says so, the class takes one of its nodes, picked at random, and
    /// else it keeps its choice.
    ///
    /// Every class with a choice must be a class of the graph. The outcome
    /// may contain a cycle.
    pub fn random_variation(egraph: &EGraph, base: &ExtractionResult, random_ratio: u32) -> (varied:
        ExtractionResult)
        requires
            egraph.well_formed(),
            forall|c: ClassId| #[trigger] base@.contains_key(c) ==> c < egraph.classes@.len(),
        ensures
            variation_of(&varied, base, egraph),
            outcome_of_varying(egraph, base, random_ratio, varied@),
    {
        let len: usize = base.len();
        let mut varied = ExtractionResult::default();
        let ghost mut draws: Seq<u32> = Seq::empty();
        let ghost mut positions: Seq<usize> = Seq::empty();
        let mut i: usize = 0;
        while i < len
            invariant
                i <= len,
                len == base.entries().len(),
                draws.len() == i,
                positions.len() == i,
                forall|w: int| 0 <= w < i ==> #[trigger] draws[w] < PROBABILITY_SCALE,
                forall|w: int|
                    0 <= w < i ==> #[trigger] positions[w]
                        < egraph.classes@[base.entries()[w].0 as int].nodes@.len(),
                varied@ == varied_with(
                    egraph,
                    base.entries(),
                    random_ratio,
                    draws,
                    positions,
                    i as nat,
                ),
                egraph.well_formed(),
                forall|c: ClassId| #[trigger] base@.contains_key(c) ==> c < egraph.classes@.len(),
                forall|c: ClassId| #[trigger] varied@.contains_key(c) ==> base@.contains_key(c),
                forall|j: int| 0 <= j < i ==> varied@.contains_key((#[trigger] base.entries()[j]).0),
                forall|c: ClassId| #[trigger]
                    varied@.contains_key(c) ==> varied@[c] == base@[c] || exists|j: int|
                        0 <= j < egraph.classes@[c as int].nodes@.len()
                            && #[trigger] egraph.classes@[c as int].nodes@[j] == varied@[c],
            decreases len - i,
        {
            let (class_id, node_id) = base.get_index(i).unwrap();
            let class: &Class = &egraph.classes[class_id];
            assert(egraph.class_ok(class_id as int));
            let draw: u32 = random_draw();
            let ghost mut position_used: usize = 0;
            let chosen: NodeId = if takes_random_node(draw, random_ratio, class.nodes.len()) {
                let position: usize = random_position(class.nodes.len());
                proof {
                    position_used = position;
                }
                class.nodes[position]
            } else {
                node_id
            };
            varied.choose_node(class_id, chosen);
            proof {
                let draws_before = draws;
                let positions_before = positions;
                draws = draws.push(draw);
                positions = positions.push(position_used);
                lemma_varied_prefix(
                    egraph,
                    base.entries(),
                    random_ratio,
                    draws_before,
                    positions_before,
                    draws,
                    positions,
                    i as nat,
                );
            }
            i += 1;
        }
        proof {
            assert forall|c: ClassId| base@.contains_key(c) implies varied@.contains_key(c) by {
                crate::choices::lemma_entries_get_position(base.entries(), c);
                let j = choose|j: int|
                    0 <= j < base.entries().len() && (#[trigger] base.entries()[j]).0 == c;
                assert(varied@.contains_key(base.entries()[j].0));
            }
            assert(varied@.dom() =~= base@.dom());
        }
        varied
    }
}

} // verus!
