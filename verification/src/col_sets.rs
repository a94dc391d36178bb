//! Sets of columns that keep the order in which the columns came in.
//!
//! The set comes from the `indexmap` crate. This module says what its
//! operations do to the sequence of elements it holds; those statements
//! are taken on trust from the crate's documentation.

use crate::linear_model::Col;
use indexmap::IndexSet;
use std::collections::hash_map::RandomState;
use vstd::prelude::*;

verus! {

#[verifier::external_type_specification]
#[verifier::external_body]
#[verifier::reject_recursive_types(T)]
#[verifier::reject_recursive_types(S)]
pub struct ExIndexSet<T, S>(IndexSet<T, S>);

/// The columns of a set, in the order in which they were first inserted.
pub uninterp spec fn col_entries(cols: IndexSet<Col, RandomState>) -> Seq<Col>;

/// `IndexSet::new`: a set without elements.
#[verifier::external_body]
pub(crate) fn cols_new() -> (cols: IndexSet<Col, RandomState>)
    ensures
        col_entries(cols) == Seq::<Col>::empty(),
{
    IndexSet::new()
}

/// `IndexSet::insert`: a column that the set holds already leaves the set
/// and its order as they are, and `false` is returned; a new column is
/// added last in order, and `true` is returned.
#[verifier::external_body]
pub(crate) fn cols_insert(cols: &mut IndexSet<Col, RandomState>, col: Col) -> (fresh: bool)
    ensures
        col_entries(*final(cols)) == if col_entries(*old(cols)).contains(col) {
            col_entries(*old(cols))
        } else {
            col_entries(*old(cols)).push(col)
        },
        fresh == !col_entries(*old(cols)).contains(col),
{
    cols.insert(col)
}

/// `IndexSet::contains`: whether the set holds the column.
#[verifier::external_body]
pub(crate) fn cols_contains(cols: &IndexSet<Col, RandomState>, col: Col) -> (found: bool)
    ensures
        found == col_entries(*cols).contains(col),
{
    cols.contains(&col)
}

/// `IndexSet::iter`: the columns of the set, in their order.
#[verifier::external_body]
pub(crate) fn cols_listed(cols: &IndexSet<Col, RandomState>) -> (listed: Vec<Col>)
    ensures
        listed@ == col_entries(*cols),
{
    cols.iter().copied().collect()
}

} // verus!
