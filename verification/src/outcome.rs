//! What a build comes to.
use crate::error::PolyglotError;
use vstd::prelude::*;

verus! {

/// What building something comes to.
pub enum Build<T> {
    /// It was built.
    Done(T),
    /// It was not built, because of an error in the input.
    Failed(PolyglotError),
    /// The input is not one that a build is defined for: what has to be
    /// written does not fit the place that is there for it.
    Undefined,
}

} // verus!
