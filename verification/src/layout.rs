//! Layout values of UI nodes.

use vstd::prelude::*;

verus! {

/// A layout value: computed, or still pending with what it is to be
/// computed from.
#[derive(Clone, Copy, PartialEq, Debug)]
pub enum NodeValueState<T, F> {
    Computed(T),
    Pending(F),
}

impl<T, F: Default> Default for NodeValueState<T, F> {
    /// Pending, with the default of what it is to be computed from.
    fn default() -> (res: Self)
        ensures
            res is Pending,
    {
        NodeValueState::Pending(F::default())
    }
}

} // verus!
