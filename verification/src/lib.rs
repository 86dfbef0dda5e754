//! Persistent collections: a map and a vector whose every change gives a new value and
//! leaves the old one as it was. The old and the new value share what the change did not
//! touch.
//!
//! The map is a hash array mapped trie, the vector a trie indexed by position. Each
//! operation states what it does to the map or the sequence that the value stands for.

pub mod hash_map;
mod share;
pub mod tagged_ref;
pub mod vec;
pub mod vector;

pub use hash_map::HashMap;
pub use vec::Vec;
