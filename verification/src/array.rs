use vstd::prelude::*;

verus! {

/// A list of at most `N` elements.
pub struct Array<T, const N: usize> {
    arr: Vec<T>,
}

impl<T, const N: usize> Array<T, N> {
    pub closed spec fn view(&self) -> Seq<T> {
        self.arr@
    }

    pub open spec fn wf(&self) -> bool {
        self.view().len() <= N
    }

    pub fn new() -> (a: Self)
        ensures
            a.view() == Seq::<T>::empty(),
    {
        Array { arr: Vec::new() }
    }

    pub fn len(&self) -> (n: usize)
        ensures
            n == self.view().len(),
    {
        self.arr.len()
    }

    /// The element at `index`; the array must not be full and `index` must be in range.
    pub fn index(&self, index: usize) -> (r: &T)
        requires
            self.view().len() < N,
            index < self.view().len(),
        ensures
            *r == self.view()[index as int],
    {
        &self.arr[index]
    }

    /// The elements in order.
    pub fn iter(&self) -> (s: &[T])
        requires
            self.view().len() < N,
        ensures
            s@ == self.view(),
    {
        self.arr.as_slice()
    }

    /// The elements in order, for changing in place.
    pub fn iter_mut(&mut self) -> (s: &mut [T])
        requires
            old(self).view().len() < N,
        ensures
            s@ == old(self).view(),
            final(self).view() == final(s)@,
    {
        self.arr.as_mut_slice()
    }

    /// Appends `val`; there must be room for it.
    pub fn push(&mut self, val: T)
        requires
            old(self).view().len() < N,
        ensures
            final(self).view() == old(self).view().push(val),
    {
        self.arr.push(val);
    }

    /// Removes and returns the last element; the array must not be empty.
    pub fn pop(&mut self) -> (r: T)
        requires
            0 < old(self).view().len() <= N,
        ensures
            r == old(self).view().last(),
            final(self).view() == old(self).view().drop_last(),
    {
        self.arr.pop().unwrap()
    }

    /// Removes all elements and hands them out in order.
    pub fn drain(&mut self) -> (r: Vec<T>)
        requires
            old(self).view().len() < N,
        ensures
            r@ == old(self).view(),
            final(self).view() == Seq::<T>::empty(),
    {
        let mut out: Vec<T> = Vec::new();
        std::mem::swap(&mut out, &mut self.arr);
        out
    }

    pub fn clear(&mut self)
        ensures
            final(self).view() == Seq::<T>::empty(),
    {
        self.arr.clear();
    }

    #[must_use]
    pub fn slice(&self) -> (s: &[T])
        requires
            self.view().len() < N,
        ensures
            s@ == self.view(),
    {
        self.arr.as_slice()
    }
}

impl<T, const N: usize> Default for Array<T, N> {
    fn default() -> (a: Self)
        ensures
            a.view() == Seq::<T>::empty(),
    {
        Array { arr: Vec::new() }
    }
}

} // verus!
