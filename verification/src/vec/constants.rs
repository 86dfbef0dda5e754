use vstd::prelude::*;

verus! {

/// The number of values that a leaf can hold, and of children that an internal node can
/// have.
pub const MAX_SIZE: usize = 32;

} // verus!
