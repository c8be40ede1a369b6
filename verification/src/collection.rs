//! Entity stores and the opaque handles that point into them.

use core::marker::PhantomData;
use vstd::prelude::*;

verus! {

/// Opaque handle to one entry of a `Collection<T>`.
pub struct Idx<T> {
    index: usize,
    marker: PhantomData<T>,
}

impl<T> Idx<T> {
    /// Position of the entry that this handle designates.
    pub closed spec fn pos(self) -> int {
        self.index as int
    }

    /// The handle that designates `index`. Whether a store holds such an
    /// entry is for the store to say: see `Collection::contains`.
    pub fn new(index: usize) -> (r: Self)
        ensures
            r.pos() == index,
    {
        Idx { index, marker: PhantomData }
    }

    /// The position of the designated entry, as a plain number.
    pub fn get(&self) -> (r: usize)
        ensures
            r == self.pos(),
    {
        self.index
    }

    /// Two handles of one kind are equal exactly when they designate the same position.
    pub proof fn lemma_pos_injective(a: Self, b: Self)
        requires
            a.pos() == b.pos(),
        ensures
            a == b,
    {
    }
}

impl<T> Clone for Idx<T> {
    fn clone(&self) -> (r: Self)
        ensures
            r == *self,
    {
        Idx { index: self.index, marker: PhantomData }
    }
}

impl<T> Copy for Idx<T> {}

/// Ordered store of the entities of one kind.
pub struct Collection<T> {
    objects: Vec<T>,
}

impl<T> View for Collection<T> {
    type V = Seq<T>;

    closed spec fn view(&self) -> Seq<T> {
        self.objects@
    }
}

impl<T> Collection<T> {
    pub fn new() -> (r: Self)
        ensures
            r@ == Seq::<T>::empty(),
    {
        Collection { objects: Vec::new() }
    }

    pub fn len(&self) -> (n: usize)
        ensures
            n == self@.len(),
    {
        self.objects.len()
    }

    /// Whether `idx` designates an entry of this store.
    pub open spec fn contains(&self, idx: Idx<T>) -> bool {
        0 <= idx.pos() < self@.len()
    }

    pub fn push(&mut self, item: T) -> (idx: Idx<T>)
        ensures
            final(self)@ == old(self)@.push(item),
            idx.pos() == old(self)@.len(),
    {
        let n = self.objects.len();
        self.objects.push(item);
        Idx::new(n)
    }

    /// The handle of the entry at `position`, if the store has one there.
    pub fn idx_at(&self, position: usize) -> (r: Option<Idx<T>>)
        ensures
            r is Some <==> position < self@.len(),
            r matches Some(idx) ==> idx.pos() == position,
    {
        if position < self.objects.len() {
            Some(Idx::new(position))
        } else {
            None
        }
    }

    /// The store that holds `objects`, in their order.
    pub fn from_vec(objects: Vec<T>) -> (r: Self)
        ensures
            r@ == objects@,
    {
        Collection { objects }
    }

    /// The entries, in the order of insertion.
    pub fn into_vec(self) -> (r: Vec<T>)
        ensures
            r@ == self@,
    {
        self.objects
    }

    /// The handles of all entries, in the order of insertion.
    pub fn handles(&self) -> (r: Vec<Idx<T>>)
        ensures
            r@.len() == self@.len(),
            forall|i: int| 0 <= i < r@.len() ==> (#[trigger] r@[i]).pos() == i,
    {
        let n = self.objects.len();
        let mut r: Vec<Idx<T>> = Vec::new();
        let mut i: usize = 0;
        while i < n
            invariant
                i <= n,
                n == self.objects@.len(),
                r@.len() == i,
                forall|k: int| 0 <= k < i ==> (#[trigger] r@[k]).pos() == k,
            decreases n - i,
        {
            r.push(Idx::new(i));
            i += 1;
        }
        r
    }

    pub fn is_empty(&self) -> (b: bool)
        ensures
            b == (self@.len() == 0),
    {
        self.objects.len() == 0
    }

    pub fn get(&self, idx: Idx<T>) -> (r: &T)
        requires
            self.contains(idx),
        ensures
            *r == self@[idx.pos()],
    {
        &self.objects[idx.index]
    }
}

} // verus!
