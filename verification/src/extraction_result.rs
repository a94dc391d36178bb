//! The outcome of an extraction: one chosen node per class.

use crate::choices::{
    choice_entries, choices_clone, choices_get, choices_get_index, choices_insert, choices_len,
    choices_new, entries_map, lemma_entries_map_empty, lemma_entries_put_map,
};
use crate::graph::{ClassId, NodeId};
use indexmap::IndexMap;
use vstd::prelude::*;

verus! {

/// A selection of one node for each of some classes.
pub struct ExtractionResult {
    /// The chosen node of each class, in the order in which the classes
    /// were first given a choice.
    pub choices: IndexMap<ClassId, NodeId>,
}

impl View for ExtractionResult {
    type V = Map<ClassId, NodeId>;

    /// The choices as a map from class to chosen node.
    open spec fn view(&self) -> Map<ClassId, NodeId> {
        entries_map(choice_entries(self.choices))
    }
}

impl Default for ExtractionResult {
    /// A result without any choice.
    fn default() -> (result: ExtractionResult)
        ensures
            result@ == Map::<ClassId, NodeId>::empty(),
            result.entries() == Seq::<(ClassId, NodeId)>::empty(),
    {
        proof {
            lemma_entries_map_empty();
        }
        ExtractionResult { choices: choices_new() }
    }
}

impl Clone for ExtractionResult {
    /// A result with the same choices in the same order.
    fn clone(&self) -> (copy: ExtractionResult)
        ensures
            copy@ == self@,
            copy.entries() == self.entries(),
    {
        ExtractionResult { choices: choices_clone(&self.choices) }
    }
}

impl ExtractionResult {
    /// The choices as `(class, node)` pairs, in the order in which the
    /// classes were first given a choice.
    pub open spec fn entries(&self) -> Seq<(ClassId, NodeId)> {
        choice_entries(self.choices)
    }

    /// Chooses `node_id` for `class_id`, replacing any earlier choice for
    /// that class.
    pub fn choose_node(&mut self, class_id: ClassId, node_id: NodeId)
        ensures
            final(self)@ == old(self)@.insert(class_id, node_id),
    {
        proof {
            lemma_entries_put_map(choice_entries(self.choices), class_id, node_id);
        }
        let _ = choices_insert(&mut self.choices, class_id, node_id);
    }

    /// The number of classes with a choice.
    pub fn len(&self) -> (n: usize)
        ensures
            n == self.entries().len(),
    {
        choices_len(&self.choices)
    }

    /// The choice at position `index` in the order in which the classes
    /// were first given a choice.
    pub fn get_index(&self, index: usize) -> (entry: Option<(ClassId, NodeId)>)
        ensures
            index >= self.entries().len() ==> entry is None,
            index < self.entries().len() ==> entry == Some(self.entries()[index as int]),
            entry matches Some(pair) ==> self@.contains_key(pair.0) && self@[pair.0] == pair.1,
    {
        choices_get_index(&self.choices, index)
    }

    /// The node chosen for `class_id`, if there is one.
    pub fn get_node(&self, class_id: ClassId) -> (node_id: Option<NodeId>)
        ensures
            node_id == if self@.contains_key(class_id) {
                Some(self@[class_id])
            } else {
                None
            },
    {
        match choices_get(&self.choices, &class_id) {
            Some(node_id) => Some(*node_id),
            None => None,
        }
    }
}

} // verus!
