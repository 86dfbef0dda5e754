use super::node_ref::NodeRef;
use vstd::prelude::*;

verus! {

/// A child of an internal node, with the number of values that the children up to it
/// hold together.
#[derive(Clone, Debug)]
pub struct Slot<T> {
    pub node_ref: NodeRef<T>,
    pub accumulated_len: usize,
}

impl<T: Copy> Slot<T> {
    /// The slot for `node_ref` behind children that hold `accumulated_len` values.
    pub fn new(node_ref: NodeRef<T>, accumulated_len: usize) -> (r: Self)
        requires
            node_ref.wf(),
            accumulated_len + node_ref.seq().len() <= usize::MAX,
        ensures
            r.node_ref == node_ref,
            r.accumulated_len == accumulated_len + node_ref.seq().len(),
    {
        let len: usize = node_ref.len();
        Self { node_ref, accumulated_len: accumulated_len + len }
    }

    pub fn node_ref(&self) -> (r: NodeRef<T>)
        ensures
            r == self.node_ref,
    {
        self.node_ref.share()
    }

    pub fn accumulated_len(&self) -> (n: usize)
        ensures
            n == self.accumulated_len,
    {
        self.accumulated_len
    }
}

} // verus!
