//! The interface a simulation model offers to whatever drives it.
use vstd::prelude::*;

verus! {

/// A model: set up once, then advanced one step at a time, each step
/// reporting a value of type `T`.
pub trait Model<T> {
    fn setup(&self);

    fn go(&self) -> T;
}

} // verus!
