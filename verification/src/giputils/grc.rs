//! Shared values behind a reference count.

use std::rc::Rc;
use std::sync::Arc;
use vstd::prelude::*;

verus! {

/// A value shared within one thread.
pub struct Grc<T> {
    rc: Rc<T>,
}

/// A value shared between threads.
pub struct Garc<T> {
    arc: Arc<T>,
}

/// `Rc::strong_count`: the number of owners of the shared value at this
/// moment. It depends on what the rest of the program holds, so nothing is
/// stated of it.
#[verifier::external_body]
fn rc_strong_count<T>(rc: &Rc<T>) -> (count: usize) {
    Rc::strong_count(rc)
}

/// `Arc::strong_count`: the number of owners of the shared value at this
/// moment. It depends on what the rest of the program holds, so nothing is
/// stated of it.
#[verifier::external_body]
fn arc_strong_count<T>(arc: &Arc<T>) -> (count: usize) {
    Arc::strong_count(arc)
}

impl<T> View for Grc<T> {
    type V = T;

    closed spec fn view(&self) -> T {
        *self.rc
    }
}

impl<T> Grc<T> {
    /// Shares `v`.
    #[inline]
    pub fn new(v: T) -> (shared: Self)
        ensures
            shared@ == v,
    {
        Self { rc: Rc::new(v) }
    }

    /// The shared value.
    #[inline]
    pub fn get(&self) -> (v: &T)
        ensures
            *v == self@,
    {
        &*self.rc
    }

    /// How many owners the shared value has at this moment.
    #[inline]
    pub fn count(&self) -> usize {
        rc_strong_count(&self.rc)
    }
}

impl<T> Clone for Grc<T> {
    /// One more owner of the same value.
    fn clone(&self) -> (shared: Self)
        ensures
            shared@ == self@,
    {
        Self { rc: self.rc.clone() }
    }
}

impl<T> View for Garc<T> {
    type V = T;

    closed spec fn view(&self) -> T {
        *self.arc
    }
}

impl<T> Garc<T> {
    /// Shares `v`.
    #[inline]
    pub fn new(v: T) -> (shared: Self)
        ensures
            shared@ == v,
    {
        Self { arc: Arc::new(v) }
    }

    /// The shared value.
    #[inline]
    pub fn get(&self) -> (v: &T)
        ensures
            *v == self@,
    {
        &*self.arc
    }

    /// How many owners the shared value has at this moment.
    #[inline]
    pub fn count(&self) -> usize {
        arc_strong_count(&self.arc)
    }
}

impl<T> Clone for Garc<T> {
    /// One more owner of the same value.
    fn clone(&self) -> (shared: Self)
        ensures
            shared@ == self@,
    {
        Self { arc: self.arc.clone() }
    }
}

} // verus!
