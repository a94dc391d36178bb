//! A first-in, first-out queue that holds no element twice.

use crate::fx_tables::{waiting_insert, waiting_new, waiting_remove};
use crate::graph::NodeId;
use rustc_hash::FxHashSet;
use std::collections::VecDeque;
use vstd::prelude::*;

verus! {

/// A queue of nodes in which a node that is already waiting is not queued
/// again. Insertion and removal take constant expected time.
pub struct UniqueQueue {
    set: FxHashSet<NodeId>,
    queue: VecDeque<NodeId>,
}

/// The queue contents after `items` were inserted one by one into a queue
/// that held `queue`.
pub open spec fn extended(queue: Seq<NodeId>, items: Seq<NodeId>) -> Seq<NodeId>
    decreases items.len(),
{
    if items.len() == 0 {
        queue
    } else {
        let before = extended(queue, items.drop_last());
        if before.contains(items.last()) {
            before
        } else {
            before.push(items.last())
        }
    }
}

/// Inserting items keeps what was queued, queues every item, and queues
/// nothing else.
#[verifier::rlimit(60)]
pub proof fn lemma_extended_contains(queue: Seq<NodeId>, items: Seq<NodeId>)
    ensures
        forall|x: NodeId| #[trigger]
            extended(queue, items).contains(x) <==> queue.contains(x) || items.contains(x),
        queue.no_duplicates() ==> extended(queue, items).no_duplicates(),
        queue.len() <= extended(queue, items).len(),
    decreases items.len(),
{
    let after = extended(queue, items);
    if items.len() == 0 {
        assert forall|x: NodeId| #[trigger] after.contains(x) <==> queue.contains(x)
            || items.contains(x) by {}
    } else {
        let rest = items.drop_last();
        let last = items.last();
        let before = extended(queue, rest);
        lemma_extended_contains(queue, rest);
        assert forall|x: NodeId| #[trigger] after.contains(x) <==> queue.contains(x)
            || items.contains(x) by {
            if items.contains(x) {
                let i = choose|i: int| 0 <= i < items.len() && items[i] == x;
                if i < rest.len() {
                    assert(rest[i] == x);
                    assert(rest.contains(x));
                }
            }
            if rest.contains(x) {
                let i = choose|i: int| 0 <= i < rest.len() && rest[i] == x;
                assert(items[i] == x);
            }
            assert(items[items.len() - 1] == last);
            if !before.contains(last) {
                if after.contains(x) {
                    let i = choose|i: int| 0 <= i < after.len() && after[i] == x;
                    if i < before.len() {
                        assert(before[i] == x);
                    }
                }
                if before.contains(x) {
                    let i = choose|i: int| 0 <= i < before.len() && before[i] == x;
                    assert(after[i] == x);
                }
                assert(after[after.len() - 1] == last);
            }
        }
    }
}

impl View for UniqueQueue {
    type V = Seq<NodeId>;

    /// The queued nodes, the next one to leave first.
    closed spec fn view(&self) -> Seq<NodeId> {
        self.queue@
    }
}

impl Default for UniqueQueue {
    /// An empty queue.
    fn default() -> (q: UniqueQueue)
        ensures
            q@ == Seq::<NodeId>::empty(),
            q.well_formed(),
    {
        let q = UniqueQueue { set: waiting_new(), queue: VecDeque::new() };
        assert(q.queue@.to_set() =~= q.set@);
        q
    }
}

impl UniqueQueue {
    /// The queue holds no node twice, and the set holds exactly the queued
    /// nodes.
    pub closed spec fn well_formed(&self) -> bool {
        &&& self.queue@.no_duplicates()
        &&& self.set@ == self.queue@.to_set()
    }

    /// Queues `t` at the end, unless it is queued already.
    #[verifier::rlimit(60)]
    pub fn insert(&mut self, t: NodeId)
        requires
            old(self).well_formed(),
        ensures
            final(self).well_formed(),
            final(self)@ == if old(self)@.contains(t) {
                old(self)@
            } else {
                old(self)@.push(t)
            },
            final(self)@.no_duplicates(),
    {
        let ghost before = self.queue@;
        if waiting_insert(&mut self.set, t) {
            self.queue.push_back(t);
            proof {
                assert(!before.contains(t));
                assert(self.queue@ == before.push(t));
                assert forall|i: int, j: int|
                    0 <= i < self.queue@.len() && 0 <= j < self.queue@.len() && i != j implies self.queue@[i]
                    != self.queue@[j] by {
                    if i < before.len() {
                        assert(before[i] == self.queue@[i]);
                        assert(before.contains(self.queue@[i]));
                    }
                    if j < before.len() {
                        assert(before[j] == self.queue@[j]);
                        assert(before.contains(self.queue@[j]));
                    }
                }
                assert(self.queue@.to_set() =~= before.to_set().insert(t)) by {
                    assert forall|x: NodeId| self.queue@.contains(x) <==> before.contains(x) || x
                        == t by {
                        if self.queue@.contains(x) {
                            let i = choose|i: int| 0 <= i < self.queue@.len() && self.queue@[i] == x;
                            if i < before.len() {
                                assert(before[i] == x);
                            }
                        }
                        if before.contains(x) {
                            let i = choose|i: int| 0 <= i < before.len() && before[i] == x;
                            assert(self.queue@[i] == x);
                        }
                        assert(self.queue@[before.len() as int] == t);
                    }
                }
            }
        } else {
            assert(before.to_set().contains(t));
            assert(self.set@ =~= self.queue@.to_set());
        }
    }

    /// Queues each of `items` in turn, skipping what is queued already.
    pub fn extend(&mut self, items: &Vec<NodeId>)
        requires
            old(self).well_formed(),
        ensures
            final(self).well_formed(),
            final(self)@ == extended(old(self)@, items@),
    {
        let mut i: usize = 0;
        while i < items.len()
            invariant
                i <= items@.len(),
                self.well_formed(),
                self@ == extended(old(self)@, items@.take(i as int)),
            decreases items@.len() - i,
        {
            assert(items@.take(i + 1).drop_last() =~= items@.take(i as int));
            self.insert(items[i]);
            i += 1;
        }
        assert(items@.take(i as int) =~= items@);
    }

    /// Takes the node at the front of the queue, if there is one.
    #[verifier::rlimit(60)]
    pub fn pop(&mut self) -> (front: Option<NodeId>)
        requires
            old(self).well_formed(),
        ensures
            final(self).well_formed(),
            old(self)@.len() == 0 ==> front is None && final(self)@ == old(self)@,
            old(self)@.len() > 0 ==> front == Some(old(self)@[0]) && final(self)@ == old(
                self,
            )@.drop_first(),
            final(self)@.no_duplicates(),
    {
        let ghost before = self.queue@;
        let res = self.queue.pop_front();
        match res {
            Some(t) => {
                waiting_remove(&mut self.set, t);
                proof {
                    assert(self.queue@ =~= before.drop_first());
                    assert(self.queue@.to_set() =~= before.to_set().remove(t)) by {
                        assert forall|x: NodeId| self.queue@.contains(x) <==> before.contains(x)
                            && x != t by {
                            if self.queue@.contains(x) {
                                let i = choose|i: int|
                                    0 <= i < self.queue@.len() && self.queue@[i] == x;
                                assert(before[i + 1] == x);
                            }
                            if before.contains(x) && x != t {
                                let i = choose|i: int| 0 <= i < before.len() && before[i] == x;
                                assert(self.queue@[i - 1] == x);
                            }
                        }
                    }
                }
            },
            None => {},
        }
        res
    }

    /// Whether nothing is queued.
    pub fn is_empty(&self) -> (empty: bool)
        ensures
            empty == (self@.len() == 0),
    {
        self.queue.len() == 0
    }
}

} // verus!
