//! A minimal in-memory store collaborator: stores a tree under an opaque
//! identifier and hands back exactly the stored snapshot, so every lookup
//! on the reloaded tree agrees with the tree that was stored.

use vstd::prelude::*;

use crate::NStack;

verus! {

/// The store: each stored tree is retrievable under the identifier that
/// storing it returned.
pub struct Store<T, A> {
    /// The stored snapshots, indexed by identifier.
    pub items: Vec<NStack<T, A>>,
}

impl<T, A> Store<T, A> {
    /// An empty store.
    pub fn new() -> (s: Self)
        ensures
            s.items@.len() == 0,
    {
        Store { items: Vec::new() }
    }

    /// Stores a tree, returning its identifier.
    pub fn put(&mut self, stack: NStack<T, A>) -> (id: usize)
        ensures
            final(self).items@ == old(self).items@.push(stack),
            id == old(self).items@.len(),
    {
        let id = self.items.len();
        self.items.push(stack);
        id
    }

    /// Reloads a read-only view of the tree stored under `id`, exactly as
    /// it was stored.
    pub fn get(&self, id: usize) -> (r: Option<&NStack<T, A>>)
        ensures
            match r {
                Some(s) => (id as int) < self.items@.len() && *s == self.items@[id as int],
                None => (id as int) >= self.items@.len(),
            },
    {
        if id < self.items.len() {
            Some(&self.items[id])
        } else {
            None
        }
    }

    /// Takes the tree stored under `id` back out of the store; later
    /// identifiers shift down by one.
    pub fn take(&mut self, id: usize) -> (r: Option<NStack<T, A>>)
        ensures
            match r {
                Some(s) => {
                    &&& (id as int) < old(self).items@.len()
                    &&& s == old(self).items@[id as int]
                    &&& final(self).items@ == old(self).items@.remove(id as int)
                },
                None => (id as int) >= old(self).items@.len() && final(self).items@ == old(
                    self,
                ).items@,
            },
    {
        if id < self.items.len() {
            Some(self.items.remove(id))
        } else {
            None
        }
    }
}

} // verus!
