//! The insertion-ordered map from a class to a number: it holds an
//! extraction's choices (the chosen node of each class) and the marks of a
//! depth-first walk.
//!
//! The map itself comes from the `indexmap` crate. This module says what
//! its operations do to the sequence of entries it holds; those statements
//! are taken on trust from the crate's documentation.

use indexmap::IndexMap;
use std::collections::hash_map::RandomState;
use vstd::prelude::*;

verus! {

#[verifier::external_type_specification]
#[verifier::external_body]
#[verifier::reject_recursive_types(K)]
#[verifier::reject_recursive_types(V)]
#[verifier::reject_recursive_types(S)]
pub struct ExIndexMap<K, V, S>(IndexMap<K, V, S>);

/// The entries of the map, as `(class, number)` pairs in the order in
/// which their classes were first inserted. For an extraction's choices
/// the number is the chosen node.
pub uninterp spec fn choice_entries(choices: IndexMap<usize, usize, RandomState>) -> Seq<
    (usize, usize),
>;

/// The value stored under `key` in a sequence of entries: that of the first
/// entry with this key.
pub open spec fn entries_get(entries: Seq<(usize, usize)>, key: usize) -> Option<usize>
    decreases entries.len(),
{
    if entries.len() == 0 {
        None
    } else if entries[0].0 == key {
        Some(entries[0].1)
    } else {
        entries_get(entries.drop_first(), key)
    }
}

/// The entries after storing `value` under `key`: an entry with this key
/// keeps its place and takes the new value; otherwise a new entry goes to
/// the end.
pub open spec fn entries_put(entries: Seq<(usize, usize)>, key: usize, value: usize) -> Seq<
    (usize, usize),
>
    decreases entries.len(),
{
    if entries.len() == 0 {
        seq![(key, value)]
    } else if entries[0].0 == key {
        seq![(key, value)] + entries.drop_first()
    } else {
        seq![entries[0]] + entries_put(entries.drop_first(), key, value)
    }
}

/// The finite map that a sequence of entries stands for.
pub open spec fn entries_map(entries: Seq<(usize, usize)>) -> Map<usize, usize> {
    Map::new(
        |k: usize| entries_get(entries, k) is Some,
        |k: usize| entries_get(entries, k)->Some_0,
    )
}

/// `IndexMap::new`: a map without entries.
#[verifier::external_body]
pub(crate) fn choices_new() -> (choices: IndexMap<usize, usize, RandomState>)
    ensures
        choice_entries(choices) == Seq::<(usize, usize)>::empty(),
{
    IndexMap::new()
}

/// `IndexMap::insert`: an equivalent key keeps its place in the order and
/// has its value replaced, the old value being returned; a new key is added
/// last in order and `None` is returned.
#[verifier::external_body]
pub(crate) fn choices_insert(
    choices: &mut IndexMap<usize, usize, RandomState>,
    key: usize,
    value: usize,
) -> (previous: Option<usize>)
    ensures
        choice_entries(*final(choices)) == entries_put(choice_entries(*old(choices)), key, value),
        previous == entries_get(choice_entries(*old(choices)), key),
{
    choices.insert(key, value)
}

/// `IndexMap::get`: a reference to the value stored for `key`, if the key is
/// present.
#[verifier::external_body]
pub(crate) fn choices_get<'a>(choices: &'a IndexMap<usize, usize, RandomState>, key: &usize) -> (value:
    Option<&'a usize>)
    ensures
        value == match entries_get(choice_entries(*choices), *key) {
            Some(v) => Some(&v),
            None => None,
        },
{
    choices.get(key)
}

/// `IndexMap::len`: the number of key-value pairs in the map.
#[verifier::external_body]
pub(crate) fn choices_len(choices: &IndexMap<usize, usize, RandomState>) -> (len: usize)
    ensures
        len == choice_entries(*choices).len(),
{
    choices.len()
}

/// `IndexMap::get_index`: the key-value pair at a position in the order,
/// for positions below `len`. As keys are unique in the map, looking the
/// pair's key up gives the pair's value.
#[verifier::external_body]
pub(crate) fn choices_get_index(choices: &IndexMap<usize, usize, RandomState>, index: usize) -> (entry:
    Option<(usize, usize)>)
    ensures
        index < choice_entries(*choices).len() ==> entry == Some(
            choice_entries(*choices)[index as int],
        ),
        index >= choice_entries(*choices).len() ==> entry is None,
        entry matches Some(pair) ==> entries_get(choice_entries(*choices), pair.0) == Some(pair.1),
{
    choices.get_index(index).map(|(k, v)| (*k, *v))
}

/// `IndexMap::clone`: a map with the same entries in the same order.
#[verifier::external_body]
pub(crate) fn choices_clone(choices: &IndexMap<usize, usize, RandomState>) -> (copy: IndexMap<
    usize,
    usize,
    RandomState,
>)
    ensures
        choice_entries(copy) == choice_entries(*choices),
{
    choices.clone()
}

/// Looking up the key just stored gives the stored value; other keys are
/// as before.
pub proof fn lemma_entries_put_get(
    entries: Seq<(usize, usize)>,
    key: usize,
    value: usize,
    other: usize,
)
    ensures
        entries_get(entries_put(entries, key, value), other) == if other == key {
            Some(value)
        } else {
            entries_get(entries, other)
        },
    decreases entries.len(),
{
    let after = entries_put(entries, key, value);
    if entries.len() == 0 {
        assert(after.drop_first() =~= Seq::<(usize, usize)>::empty());
    } else if entries[0].0 == key {
        assert(after.drop_first() =~= entries.drop_first());
    } else {
        assert(after.drop_first() =~= entries_put(entries.drop_first(), key, value));
        lemma_entries_put_get(entries.drop_first(), key, value, other);
    }
}

/// Storing a value under a key is inserting into the map that the entries
/// stand for.
pub proof fn lemma_entries_put_map(entries: Seq<(usize, usize)>, key: usize, value: usize)
    ensures
        entries_map(entries_put(entries, key, value)) == entries_map(entries).insert(key, value),
{
    let after = entries_map(entries_put(entries, key, value));
    let expected = entries_map(entries).insert(key, value);
    assert forall|k: usize| #[trigger] after.dom().contains(k) == expected.dom().contains(k) by {
        lemma_entries_put_get(entries, key, value, k);
    }
    assert forall|k: usize| #[trigger] after.dom().contains(k) implies after[k] == expected[k] by {
        lemma_entries_put_get(entries, key, value, k);
    }
    assert(after =~= expected);
}

/// Nothing is stored in an empty sequence of entries.
pub proof fn lemma_entries_map_empty()
    ensures
        entries_map(Seq::<(usize, usize)>::empty()) == Map::<usize, usize>::empty(),
{
    assert(entries_map(Seq::<(usize, usize)>::empty()) =~= Map::<usize, usize>::empty());
}

/// A key with a value has an entry.
pub proof fn lemma_entries_get_position(entries: Seq<(usize, usize)>, key: usize)
    requires
        entries_get(entries, key) is Some,
    ensures
        exists|i: int| 0 <= i < entries.len() && (#[trigger] entries[i]).0 == key,
    decreases entries.len(),
{
    if entries[0].0 == key {
        assert(entries[0].0 == key);
    } else {
        let rest = entries.drop_first();
        lemma_entries_get_position(rest, key);
        let i = choose|i: int| 0 <= i < rest.len() && (#[trigger] rest[i]).0 == key;
        assert(entries[i + 1] == rest[i]);
    }
}

} // verus!
