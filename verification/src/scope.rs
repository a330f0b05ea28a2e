//! Scoped collection: values attached while a scope is open are collected
//! by that scope, and what was attached before it is kept for later.

use vstd::prelude::*;

verus! {

/// The values attached since the innermost open scope began.
pub struct Attached<T> {
    nodes: Vec<T>,
}

impl<T> Attached<T> {
    pub closed spec fn view(self) -> Seq<T> {
        self.nodes@
    }

    /// Nothing attached.
    pub fn new() -> (res: Self)
        ensures
            res@ == Seq::<T>::empty(),
    {
        Attached { nodes: Vec::new() }
    }

    /// Attaches `node` to the innermost open scope.
    pub fn attach(&mut self, node: T)
        ensures
            final(self)@ == old(self)@.push(node),
    {
        self.nodes.push(node);
    }

    /// What is attached, first to last.
    pub fn as_slice(&self) -> (res: &[T])
        ensures
            res@ == self@,
    {
        self.nodes.as_slice()
    }

    /// Takes everything attached, leaving nothing.
    pub fn take(&mut self) -> (res: Vec<T>)
        ensures
            res@ == old(self)@,
            final(self)@ == Seq::<T>::empty(),
    {
        let mut nodes: Vec<T> = Vec::new();
        std::mem::swap(&mut nodes, &mut self.nodes);
        nodes
    }
}

/// An open scope: it holds what was attached before it began.
pub struct Scope<T> {
    prev_attached: Vec<T>,
}

impl<T> Scope<T> {
    /// What was attached before the scope began.
    pub closed spec fn saved(self) -> Seq<T> {
        self.prev_attached@
    }

    /// Opens a scope: what is attached now is set aside until the scope is
    /// collected.
    pub fn new(attached: &mut Attached<T>) -> (res: Self)
        ensures
            res.saved() == old(attached)@,
            final(attached)@ == Seq::<T>::empty(),
    {
        Scope { prev_attached: attached.take() }
    }

    /// Closes the scope: returns what was attached while it was open, and
    /// puts back what was attached before it.
    pub fn collect(self, attached: &mut Attached<T>) -> (res: Vec<T>)
        ensures
            res@ == old(attached)@,
            final(attached)@ == self.saved(),
    {
        let mut nodes = self.prev_attached;
        std::mem::swap(&mut nodes, &mut attached.nodes);
        nodes
    }
}

} // verus!
