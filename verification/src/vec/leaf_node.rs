use super::constants::MAX_SIZE;
use super::node_ref::NodeRef;
use std::sync::Arc;
use vstd::laws_eq::obeys_concrete_eq;
use vstd::prelude::*;
use vstd::std_specs::cmp::PartialEqSpecImpl;

verus! {

/// A leaf of the trie: up to 32 values in the order of their positions.
#[derive(Clone, Debug)]
pub struct LeafNode<T> {
    values: Vec<T>,
}

impl<T> View for LeafNode<T> {
    type V = Seq<T>;

    closed spec fn view(&self) -> Seq<T> {
        self.values@
    }
}

impl<T> LeafNode<T> {
    /// The leaf holds no more values than a leaf can.
    pub open spec fn wf(&self) -> bool {
        self@.len() <= MAX_SIZE
    }
}

impl<T: Copy> LeafNode<T> {
    /// A leaf with the values of `values`.
    pub fn new(values: &[T]) -> (r: NodeRef<T>)
        requires
            values@.len() <= MAX_SIZE,
        ensures
            r matches NodeRef::LeafNode(leaf) && leaf@ == values@,
    {
        let mut leaf_node = Self { values: Vec::new() };
        let mut i: usize = 0;
        while i < values.len()
            invariant
                i <= values@.len(),
                leaf_node@ == values@.take(i as int),
            decreases values@.len() - i,
        {
            leaf_node.append_value(values[i]);
            i += 1;
            assert(leaf_node@ =~= values@.take(i as int));
        }
        assert(leaf_node@ =~= values@);
        NodeRef::LeafNode(Arc::new(leaf_node))
    }

    /// A leaf with `value` behind the values of this one, or nothing if this one is full.
    pub fn push_back(&self, value: T) -> (r: Option<NodeRef<T>>)
        requires
            self.wf(),
        ensures
            match r {
                Some(node_ref) => {
                    &&& self@.len() < MAX_SIZE
                    &&& node_ref matches NodeRef::LeafNode(leaf)
                    &&& leaf@ == self@.push(value)
                },
                None => self@.len() == MAX_SIZE,
            },
    {
        if self.values.len() == MAX_SIZE {
            None
        } else {
            let mut leaf_node = self.copy();
            leaf_node.append_value(value);
            Some(NodeRef::LeafNode(Arc::new(leaf_node)))
        }
    }

    /// The number of values.
    pub fn len(&self) -> (n: usize)
        ensures
            n == self@.len(),
    {
        self.values.len()
    }

    /// The value at `index`.
    pub fn get(&self, index: usize) -> (value: T)
        requires
            index < self@.len(),
        ensures
            value == self@[index as int],
    {
        self.values[index]
    }

    /// The value at `index`, in place.
    pub fn index(&self, index: usize) -> (value: &T)
        requires
            index < self@.len(),
        ensures
            *value == self@[index as int],
    {
        &self.values[index]
    }

    /// A leaf with the same values.
    fn copy(&self) -> (r: Self)
        ensures
            r@ == self@,
    {
        let mut values: Vec<T> = Vec::new();
        let mut i: usize = 0;
        while i < self.values.len()
            invariant
                i <= self.values@.len(),
                values@ == self.values@.take(i as int),
            decreases self.values@.len() - i,
        {
            values.push(self.values[i]);
            i += 1;
            assert(values@ =~= self.values@.take(i as int));
        }
        assert(values@ =~= self.values@);
        Self { values }
    }

    fn append_value(&mut self, value: T)
        ensures
            final(self)@ == old(self)@.push(value),
    {
        self.values.push(value);
    }
}

/// A walk over the values of a leaf, in the order of their positions.
#[derive(Clone, Debug)]
pub struct LeafNodeIterator<'a, T> {
    leaf_node: &'a LeafNode<T>,
    index: usize,
}

impl<'a, T: Copy> LeafNodeIterator<'a, T> {
    /// The walk has not gone past the last value.
    pub closed spec fn wf(&self) -> bool {
        self.index <= self.leaf_node@.len()
    }

    /// The values that the walk has yet to give, in order.
    pub closed spec fn remaining(&self) -> Seq<T> {
        self.leaf_node@.skip(self.index as int)
    }

    /// Gives the next value, if one is left, and moves past it.
    pub fn next(&mut self) -> (r: Option<T>)
        requires
            old(self).wf(),
        ensures
            final(self).wf(),
            match r {
                Some(value) => {
                    &&& old(self).remaining().len() > 0
                    &&& value == old(self).remaining()[0]
                    &&& final(self).remaining() == old(self).remaining().skip(1)
                },
                None => {
                    &&& old(self).remaining().len() == 0
                    &&& final(self).remaining() == old(self).remaining()
                },
            },
    {
        if self.index == self.leaf_node.len() {
            None
        } else {
            let value: T = self.leaf_node.get(self.index);
            self.index += 1;
            proof {
                assert(final(self).remaining() =~= old(self).remaining().skip(1));
            }
            Some(value)
        }
    }
}

impl<T: Copy> LeafNode<T> {
    /// A walk over the values, from the first.
    pub fn iter(&self) -> (r: LeafNodeIterator<'_, T>)
        ensures
            r.wf(),
            r.remaining() == self@,
    {
        let r = LeafNodeIterator { leaf_node: self, index: 0 };
        assert(r.remaining() =~= self@);
        r
    }
}

impl<T: Copy + PartialEq> PartialEq for LeafNode<T> {
    /// Whether the two leaves hold the same values at the same positions.
    fn eq(&self, other: &Self) -> (r: bool) {
        proof {
            reveal(obeys_concrete_eq);
        }
        if self.values.len() != other.values.len() {
            return false;
        }
        let mut index: usize = 0;
        while index < self.values.len()
            invariant
                self.values@.len() == other.values@.len(),
                index <= self.values@.len(),
                obeys_concrete_eq::<T>() ==> forall|i: int|
                    0 <= i < index ==> self.values@[i] == other.values@[i],
            decreases self.values@.len() - index,
        {
            proof {
                reveal(obeys_concrete_eq);
            }
            if self.get(index) != other.get(index) {
                return false;
            }
            index += 1;
        }
        assert(obeys_concrete_eq::<T>() ==> self@ =~= other@);
        true
    }
}

impl<T: Copy + PartialEq> PartialEqSpecImpl for LeafNode<T> {
    open spec fn obeys_eq_spec() -> bool {
        obeys_concrete_eq::<T>()
    }

    open spec fn eq_spec(&self, other: &Self) -> bool {
        self@ == other@
    }
}

} // verus!
