//! Routines: code that runs without arguments, such as a system body.

use vstd::prelude::*;

verus! {

/// Code run for its effects alone.
pub trait Routine {
    fn run(&mut self);
}

} // verus!
