//! The marks of a depth-first walk: for each class that the walk has
//! reached, whether the walk is still below it or has left it. The marks
//! are kept in an insertion-ordered map from class to mark; a class
//! without an entry has not been reached.

use crate::choices::{
    choice_entries, choices_get, choices_insert, choices_new, entries_map, lemma_entries_map_empty,
    lemma_entries_put_map,
};
use crate::cycles::Status;
use crate::graph::ClassId;
use indexmap::IndexMap;
use std::collections::hash_map::RandomState;
use vstd::prelude::*;

verus! {

/// The mark that is stored for a class while the walk is below it.
pub const MARK_IN_PROGRESS: usize = 0;

/// The mark that is stored for a class that the walk has left.
pub const MARK_DONE: usize = 1;

/// What the marks say of class `c`.
pub open spec fn status_of(marks: Map<ClassId, usize>, c: ClassId) -> Status {
    if !marks.contains_key(c) {
        Status::Unvisited
    } else if marks[c] == MARK_IN_PROGRESS {
        Status::InProgress
    } else {
        Status::Done
    }
}

/// The mark that stands for a status other than `Unvisited`.
pub open spec fn mark_of(status: Status) -> usize {
    if status is InProgress {
        MARK_IN_PROGRESS
    } else {
        MARK_DONE
    }
}

/// The marks of a walk over a graph with a given number of classes.
pub struct StatusTable {
    len: usize,
    marks: IndexMap<ClassId, usize, RandomState>,
}

impl View for StatusTable {
    type V = Seq<Status>;

    /// The status of each class, by class id.
    closed spec fn view(&self) -> Seq<Status> {
        Seq::new(
            self.len as nat,
            |c: int| status_of(entries_map(choice_entries(self.marks)), c as ClassId),
        )
    }
}

impl StatusTable {
    /// The marks before the walk: no class of `len` classes is reached.
    pub fn new(len: usize) -> (table: StatusTable)
        ensures
            table@.len() == len,
            forall|c: int| 0 <= c < len ==> table@[c] is Unvisited,
    {
        proof {
            lemma_entries_map_empty();
        }
        StatusTable { len, marks: choices_new() }
    }

    /// The status of class `c`.
    pub fn get(&self, c: ClassId) -> (status: Status)
        requires
            c < self@.len(),
        ensures
            status == self@[c as int],
    {
        match choices_get(&self.marks, &c) {
            None => Status::Unvisited,
            Some(mark) => if *mark == MARK_IN_PROGRESS {
                Status::InProgress
            } else {
                Status::Done
            },
        }
    }

    /// Marks class `c` as in progress or done.
    pub fn set(&mut self, c: ClassId, status: Status)
        requires
            c < old(self)@.len(),
            !(status is Unvisited),
        ensures
            final(self)@ == old(self)@.update(c as int, status),
    {
        let mark: usize = match status {
            Status::InProgress => MARK_IN_PROGRESS,
            _ => MARK_DONE,
        };
        proof {
            lemma_entries_put_map(choice_entries(self.marks), c, mark);
        }
        let _ = choices_insert(&mut self.marks, c, mark);
        assert(self@ =~= old(self)@.update(c as int, status));
    }
}

} // verus!
