//! The persistent vector under its longer name.

use vstd::prelude::*;

verus! {

/// The persistent vector.
pub type Vector<T> = crate::vec::Vec<T>;

} // verus!
