//! A list of bounded length.

use vstd::prelude::*;

verus! {

/// At most `SIZE` elements in a row.
#[derive(Debug)]
pub struct StackVec<T: Copy, const SIZE: usize> {
    inner: Vec<T>,
}

impl<T: Copy, const SIZE: usize> View for StackVec<T, SIZE> {
    type V = Seq<T>;

    closed spec fn view(&self) -> Seq<T> {
        self.inner@
    }
}

impl<T: Copy, const SIZE: usize> StackVec<T, SIZE> {
    pub fn new() -> (res: Self)
        ensures
            res@ == Seq::<T>::empty(),
    {
        StackVec { inner: Vec::new() }
    }

    /// Appends an element; there has to be room for it.
    pub fn push(&mut self, e: T)
        requires
            old(self)@.len() < SIZE,
        ensures
            final(self)@ == old(self)@.push(e),
    {
        self.inner.push(e);
    }

    /// Puts an element in the place of another one.
    pub fn replace(&mut self, e: T, index: usize) -> (res: T)
        requires
            index < old(self)@.len(),
        ensures
            res == old(self)@[index as int],
            final(self)@ == old(self)@.update(index as int, e),
    {
        let old_element = self.get(index);
        self.inner.set(index, e);
        old_element
    }

    /// Takes an element out and moves the last one into its place.
    pub fn remove(&mut self, index: usize) -> (res: Option<T>)
        requires
            index < old(self)@.len(),
        ensures
            res == Some(old(self)@[index as int]),
            final(self)@ == old(self)@.update(index as int, old(self)@.last()).drop_last(),
    {
        let ghost before = self@;
        let n: usize = self.inner.len();
        if index == n - 1 {
            let e = self.inner.pop();
            assert(self@ =~= before.update(index as int, before.last()).drop_last());
            return e;
        }
        let last = self.inner[n - 1];
        let _ = self.inner.pop();
        let e = self.replace(last, index);
        assert(self@ =~= before.update(index as int, before.last()).drop_last());
        Some(e)
    }

    pub fn get(&self, index: usize) -> (res: T)
        requires
            index < self@.len(),
        ensures
            res == self@[index as int],
    {
        self.inner[index]
    }

    pub fn clear(&mut self)
        ensures
            final(self)@ == Seq::<T>::empty(),
    {
        self.inner.clear();
    }

    pub fn pop(&mut self) -> (res: Option<T>)
        ensures
            old(self)@.len() == 0 ==> res is None && final(self)@ == old(self)@,
            old(self)@.len() > 0 ==> res == Some(old(self)@.last()) && final(self)@ == old(
                self,
            )@.drop_last(),
    {
        self.inner.pop()
    }

    pub fn len(&self) -> (res: usize)
        ensures
            res == self@.len(),
    {
        self.inner.len()
    }

    pub fn is_empty(&self) -> (res: bool)
        ensures
            res <==> self@.len() == 0,
    {
        self.inner.len() == 0
    }

    /// The elements in order.
    pub fn iter(&self) -> (res: Vec<T>)
        ensures
            res@ == self@,
    {
        let mut out: Vec<T> = Vec::new();
        let mut i: usize = 0;
        while i < self.inner.len()
            invariant
                i <= self.inner@.len(),
                out@ == self.inner@.take(i as int),
            decreases self.inner@.len() - i,
        {
            out.push(self.inner[i]);
            i += 1;
            assert(out@ =~= self.inner@.take(i as int));
        }
        assert(out@ =~= self@);
        out
    }
}

/// Taking out what was put in last leaves the list as it was.
pub proof fn law_push_pop<T>(s: Seq<T>, e: T)
    ensures
        s.push(e).drop_last() == s,
        s.push(e).last() == e,
{
    assert(s.push(e).drop_last() =~= s);
}

impl<T: Copy, const SIZE: usize> Default for StackVec<T, SIZE> {
    fn default() -> (res: Self)
        ensures
            res@ == Seq::<T>::empty(),
    {
        StackVec::new()
    }
}

} // verus!
