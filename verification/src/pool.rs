//! A free list of reusable objects.

use vstd::prelude::*;

verus! {

/// Objects handed back for reuse; the most recently released one is
/// handed out first.
pub struct Pool<T> {
    free: Vec<T>,
}

impl<T> View for Pool<T> {
    type V = Seq<T>;

    closed spec fn view(&self) -> Seq<T> {
        self.free@
    }
}

impl<T> Pool<T> {
    /// An empty pool.
    pub fn new() -> (r: Self)
        ensures
            r@ == Seq::<T>::empty(),
    {
        Pool { free: Vec::new() }
    }

    /// An empty pool with room reserved for `capacity` objects.
    pub fn with_capacity(capacity: usize) -> (r: Self)
        ensures
            r@ == Seq::<T>::empty(),
    {
        Pool { free: Vec::with_capacity(capacity) }
    }

    /// The most recently released object, or a fresh one from `factory`
    /// where the pool is empty.
    pub fn acquire<F>(&mut self, factory: F) -> (r: T) where F: FnOnce() -> T
        requires
            old(self)@.len() == 0 ==> factory.requires(()),
        ensures
            old(self)@.len() > 0 ==> r == old(self)@.last() && final(self)@ == old(self)@.drop_last(),
            old(self)@.len() == 0 ==> factory.ensures((), r) && final(self)@ == old(self)@,
    {
        match self.free.pop() {
            Some(t) => t,
            None => factory(),
        }
    }

    /// Hands `item` back for reuse.
    pub fn release(&mut self, item: T)
        ensures
            final(self)@ == old(self)@.push(item),
    {
        self.free.push(item);
    }

    /// The number of pooled objects.
    pub fn len(&self) -> (r: usize)
        ensures
            r == self@.len(),
    {
        self.free.len()
    }

    /// Whether no object is pooled.
    pub fn is_empty(&self) -> (r: bool)
        ensures
            r == (self@.len() == 0),
    {
        self.free.len() == 0
    }
}

impl<T> Default for Pool<T> {
    fn default() -> (r: Self)
        ensures
            r@ == Seq::<T>::empty(),
    {
        Pool::new()
    }
}

} // verus!
