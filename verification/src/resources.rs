//! Resources: values the world holds at most one of per type.
use vstd::prelude::*;

verus! {

/// A value the world holds at most one of, looked up by its type.
pub trait Resource {}

} // verus!
