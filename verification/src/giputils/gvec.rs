//! A vector that is indexed by `u32` and never holds more elements than a
//! `u32` can count.

use vstd::prelude::*;

verus! {

/// A growable vector whose length always fits in a `u32`.
pub struct Gvec<T> {
    data: Vec<T>,
}

impl<T> View for Gvec<T> {
    type V = Seq<T>;

    closed spec fn view(&self) -> Seq<T> {
        self.data@
    }
}

impl<T> Gvec<T> {
    /// The length fits in a `u32`.
    pub open spec fn well_formed(&self) -> bool {
        self@.len() <= u32::MAX
    }

    /// An empty vector.
    #[inline]
    pub fn new() -> (v: Self)
        ensures
            v@ == Seq::<T>::empty(),
            v.well_formed(),
    {
        Self { data: Vec::new() }
    }

    /// The number of elements.
    #[inline]
    pub fn len(&self) -> (len: u32)
        requires
            self.well_formed(),
        ensures
            len == self@.len(),
    {
        self.data.len() as u32
    }

    /// The element at `index`.
    #[inline]
    pub fn get(&self, index: u32) -> (element: &T)
        requires
            index < self@.len(),
        ensures
            *element == self@[index as int],
    {
        &self.data[index as usize]
    }

    /// Puts `value` in place of the element at `index`.
    #[inline]
    pub fn set(&mut self, index: u32, value: T)
        requires
            index < old(self)@.len(),
        ensures
            final(self)@ == old(self)@.update(index as int, value),
    {
        self.data.set(index as usize, value);
    }
}

impl<T: Copy> Gvec<T> {
    /// Exchanges the elements at `x` and `y`.
    #[inline]
    pub fn swap(&mut self, x: u32, y: u32)
        requires
            x < old(self)@.len(),
            y < old(self)@.len(),
        ensures
            final(self)@ == old(self)@.update(x as int, old(self)@[y as int]).update(
                y as int,
                old(self)@[x as int],
            ),
    {
        let a: T = self.data[x as usize];
        let b: T = self.data[y as usize];
        self.data.set(x as usize, b);
        self.data.set(y as usize, a);
    }

    /// Removes the element at `index` by moving the last element into its
    /// place.
    #[inline]
    pub fn swap_remove(&mut self, index: u32)
        requires
            index < old(self)@.len(),
        ensures
            final(self)@ == old(self)@.update(index as int, old(self)@.last()).drop_last(),
    {
        let last: T = self.data.pop().unwrap();
        if (index as usize) < self.data.len() {
            self.data.set(index as usize, last);
        }
        assert(self.data@ =~= old(self)@.update(index as int, old(self)@.last()).drop_last());
    }
}

impl<T: Default> Gvec<T> {
    /// Grows the vector with default values until it has `size` elements.
    /// A vector with more than `size` elements is left as it is. Each added
    /// element is a value that `T::default` returns.
    #[inline]
    pub fn reserve(&mut self, size: u32)
        ensures
            final(self)@.len() == if old(self)@.len() <= size {
                size as nat
            } else {
                old(self)@.len()
            },
            final(self)@.subrange(0, old(self)@.len() as int) == old(self)@,
            forall|i: int|
                old(self)@.len() <= i < final(self)@.len() ==> call_ensures(
                    T::default,
                    (),
                    #[trigger] final(self)@[i],
                ),
            old(self).well_formed() ==> final(self).well_formed(),
    {
        while self.data.len() < size as usize
            invariant
                old(self)@.len() <= self.data@.len(),
                old(self)@.len() <= size ==> self.data@.len() <= size,
                old(self)@.len() > size ==> self.data@.len() == old(self)@.len(),
                self.data@.subrange(0, old(self)@.len() as int) == old(self)@,
                forall|i: int|
                    old(self)@.len() <= i < self.data@.len() ==> call_ensures(
                        T::default,
                        (),
                        #[trigger] self.data@[i],
                    ),
            decreases size - self.data@.len(),
        {
            let ghost before = self.data@;
            self.data.push(T::default());
            assert(self.data@.subrange(0, old(self)@.len() as int) =~= before.subrange(
                0,
                old(self)@.len() as int,
            ));
        }
        assert(self.data@.subrange(0, old(self)@.len() as int) =~= old(self)@);
    }
}

} // verus!
