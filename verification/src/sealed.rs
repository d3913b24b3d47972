use vstd::prelude::*;

verus! {

/// Keeps the set of memory-access capabilities closed to this crate.
pub trait Sealed {}

} // verus!
