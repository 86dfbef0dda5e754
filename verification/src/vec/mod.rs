//! A persistent vector on a trie.
//!
//! A leaf holds up to 32 values, an internal node up to 32 children, each with the number
//! of values below the children up to it. All children of a node are of one level. A push
//! copies the nodes on the way to the last leaf, and puts one more level on top when no
//! node on that way has room left.

pub mod constants;
pub mod internal_node;
pub mod leaf_node;
pub mod node_ref;
pub mod slot;
pub mod utilities;

use internal_node::InternalNode;
use leaf_node::LeafNode;
use node_ref::NodeRef;
use utilities::create_branch;
use std::ops::Index;
use vstd::prelude::*;

verus! {

/// A persistent vector: each push gives a new vector and leaves the old one as it was.
/// The two share what the push did not touch.
#[derive(Clone, Debug)]
pub struct Vec<T> {
    root: NodeRef<T>,
    len: usize,
}

impl<T> View for Vec<T> {
    type V = Seq<T>;

    closed spec fn view(&self) -> Seq<T> {
        self.root.seq()
    }
}

impl<T> Vec<T> {
    /// The root of the trie.
    pub closed spec fn root_spec(&self) -> NodeRef<T> {
        self.root
    }

    /// The trie is well-formed, the length is the number of its values, and the trie is
    /// no higher than the vector is long.
    pub closed spec fn wf(&self) -> bool {
        &&& self.root.wf()
        &&& self.len == self.root.seq().len()
        &&& self.root.level_spec() <= self.len
    }
}

/// The error of a lookup at a position that the vector does not have.
#[derive(Clone, Copy, Debug, PartialEq, Eq)]
pub struct IndexOutOfRange {
    /// The position that was asked for.
    pub index: usize,
    /// The length of the vector.
    pub len: usize,
}

impl<T: Copy> Vec<T> {
    /// The vector without values.
    pub fn new() -> (r: Self)
        ensures
            r.wf(),
            r@ == Seq::<T>::empty(),
            r.root_spec() is LeafNode,
    {
        let values: [T; 0] = [];
        let root = LeafNode::new(values.as_slice());
        assert(root.seq() =~= Seq::<T>::empty());
        Self { root, len: 0 }
    }

    /// The vector with `value` behind the values of this one. Where the trie is full, the
    /// new one is one level higher: its root has the old root and a minimal branch with
    /// `value` as its children.
    pub fn push_back(&self, value: T) -> (r: Self)
        requires
            self.wf(),
            self@.len() < usize::MAX,
        ensures
            r.wf(),
            r@ == self@.push(value),
            r.root_spec().level_spec() == self.root_spec().level_spec() + if self.root_spec().full() {
                1nat
            } else {
                0nat
            },
            !self.root_spec().full() ==> self.root_spec().pushed(value, r.root_spec()),
            self.root_spec().full() ==> ({
                &&& r.root_spec() matches NodeRef::InternalNode(n)
                &&& n.slots().len() == 2
                &&& n.slots()[0].node_ref == self.root_spec()
                &&& n.slots()[1].node_ref.is_branch(value)
            }),
    {
        let root: NodeRef<T> = match self.root.push_back(value) {
            Some(node_ref) => node_ref,
            None => {
                let node_refs: [NodeRef<T>; 2] = [
                    self.root.share(),
                    create_branch(value, self.root.level()),
                ];
                proof {
                    let refs = node_refs@;
                    reveal_with_fuel(internal_node::concat, 3);
                    assert(refs.drop_last().last() == self.root);
                    assert(internal_node::concat(refs.drop_last()) =~= self.root.seq());
                    assert(internal_node::concat(refs) =~= self.root.seq().push(value));
                }
                let node_ref = InternalNode::new(node_refs.as_slice());
                proof {
                    match &node_ref {
                        NodeRef::InternalNode(n) => {
                            n.lemma_wf();
                        },
                        NodeRef::LeafNode(_) => {},
                    }
                }
                node_ref
            },
        };
        Self { root, len: self.len + 1 }
    }

    /// The vector with the values of `other` behind the values of this one.
    pub fn append(&self, other: &Vec<T>) -> (r: Vec<T>)
        requires
            self.wf(),
            other.wf(),
            self@.len() + other@.len() <= usize::MAX,
        ensures
            r.wf(),
            r@ == self@ + other@,
    {
        let mut vec: Vec<T> = Self { root: self.root.share(), len: self.len };
        let mut i: usize = 0;
        while i < other.len
            invariant
                self.wf(),
                other.wf(),
                self@.len() + other@.len() <= usize::MAX,
                i <= other.len,
                vec.wf(),
                vec@ == self@ + other@.take(i as int),
            decreases other.len - i,
        {
            vec = vec.push_back(*other.root.index(i));
            i += 1;
            assert(vec@ =~= self@ + other@.take(i as int));
        }
        assert(other@.take(i as int) =~= other@);
        vec
    }

    /// The value at `index`, or the error if the vector is no longer than `index`.
    pub fn at(&self, index: usize) -> (r: Result<T, IndexOutOfRange>)
        requires
            self.wf(),
        ensures
            match r {
                Ok(value) => index < self@.len() && value == self@[index as int],
                Err(e) => index >= self@.len() && e == (IndexOutOfRange { index, len: self@.len() as usize }),
            },
    {
        if index < self.len {
            Ok(*self.root.index(index))
        } else {
            Err(IndexOutOfRange { index, len: self.len })
        }
    }

    /// The number of values.
    pub fn len(&self) -> (n: usize)
        requires
            self.wf(),
        ensures
            n == self@.len(),
    {
        self.len
    }

    /// Whether the vector is without values.
    pub fn is_empty(&self) -> (b: bool)
        requires
            self.wf(),
        ensures
            b == (self@.len() == 0),
    {
        self.len == 0
    }

    /// The root of the trie.
    pub fn root(&self) -> (r: &NodeRef<T>)
        ensures
            *r == self.root_spec(),
    {
        &self.root
    }

    /// A walk over the values, from the first.
    pub fn iter(&self) -> (r: VecIterator<'_, T>)
        requires
            self.wf(),
        ensures
            r.wf(),
            r.remaining() == self@,
    {
        let r = VecIterator { vec: self, index: 0 };
        assert(r.remaining() =~= self@);
        r
    }
}

impl<T: Copy> Index<usize> for Vec<T> {
    type Output = T;

    /// The value at `index`, in place.
    fn index(&self, index: usize) -> (value: &T)
        ensures
            *value == self@[index as int],
    {
        self.root.index(index)
    }
}

impl<T: Copy> vstd::std_specs::core::IndexSpecImpl<usize> for Vec<T> {
    open spec fn index_req(&self, index: &usize) -> bool {
        self.wf() && *index < self@.len()
    }
}

/// A walk over the values of a vector, in the order of their positions. It walks the
/// vector as it was when the walk began.
#[derive(Clone, Debug)]
pub struct VecIterator<'a, T> {
    vec: &'a Vec<T>,
    index: usize,
}

impl<'a, T: Copy> VecIterator<'a, T> {
    /// The vector is well-formed, and the walk has not gone past its last value.
    pub closed spec fn wf(&self) -> bool {
        &&& self.vec.wf()
        &&& self.index <= self.vec@.len()
    }

    /// The values that the walk has yet to give, in order.
    pub closed spec fn remaining(&self) -> Seq<T> {
        self.vec@.skip(self.index as int)
    }

    /// Gives the next value, if one is left, and moves past it.
    pub fn next(&mut self) -> (r: Option<T>)
        requires
            old(self).wf(),
        ensures
            final(self).wf(),
            match r {
                Some(value) => {
                    &&& old(self).remaining().len() > 0
                    &&& value == old(self).remaining()[0]
                    &&& final(self).remaining() == old(self).remaining().skip(1)
                },
                None => {
                    &&& old(self).remaining().len() == 0
                    &&& final(self).remaining() == old(self).remaining()
                },
            },
    {
        if self.index == self.vec.len() {
            None
        } else {
            let value: T = self.vec[self.index];
            self.index += 1;
            proof {
                assert(final(self).remaining() =~= old(self).remaining().skip(1));
            }
            Some(value)
        }
    }
}

impl<T: Copy> Vec<T> {
    /// A push makes the vector longer by one, puts the value at the end, and leaves the
    /// values at the other positions as they were: if `after` is what `push_back` gives
    /// for `value`, then `at` gives on it `value` at the old length, and below that what
    /// it gives on this vector.
    pub proof fn law_push_back(&self, value: T, after: &Self)
        requires
            self.wf(),
            after.wf(),
            after@ == self@.push(value),
        ensures
            after@.len() == self@.len() + 1,
            after@[self@.len() as int] == value,
            forall|i: int| 0 <= i < self@.len() ==> after@[i] == self@[i],
    {
    }
}

} // verus!
