use super::internal_node::InternalNode;
use super::leaf_node::LeafNode;
use crate::share::share;
use std::sync::Arc;
use vstd::prelude::*;

verus! {

/// A node of the trie, shared by all the vectors that hold it.
#[derive(Clone, Debug)]
pub enum NodeRef<T> {
    InternalNode(Arc<InternalNode<T>>),
    LeafNode(Arc<LeafNode<T>>),
}

/// A node of the trie by its kind.
#[derive(Clone, Debug)]
pub enum ConcreteNodeRef<'a, T> {
    InternalNode(&'a InternalNode<T>),
    LeafNode(&'a LeafNode<T>),
}

impl<T> View for NodeRef<T> {
    type V = Seq<T>;

    open spec fn view(&self) -> Seq<T> {
        self.seq()
    }
}

impl<T> NodeRef<T> {
    /// The values at and below the node, in the order of their positions.
    pub open spec fn seq(self) -> Seq<T>
        decreases self,
    {
        match self {
            NodeRef::InternalNode(n) => n.seq(),
            NodeRef::LeafNode(l) => l@,
        }
    }

    /// The number of internal nodes between the node and its leaves, itself included.
    pub open spec fn level_spec(self) -> nat
        decreases self,
    {
        match self {
            NodeRef::InternalNode(n) => n.level_spec(),
            NodeRef::LeafNode(_) => 0,
        }
    }

    /// The node and all below it are well-formed.
    pub open spec fn wf(self) -> bool
        decreases self,
    {
        match self {
            NodeRef::InternalNode(n) => n.wf(),
            NodeRef::LeafNode(l) => l.wf(),
        }
    }

    /// The node is a minimal branch with `value`: a leaf with the one value, or a chain of
    /// internal nodes with one child each above such a leaf.
    pub open spec fn is_branch(self, value: T) -> bool
        decreases self,
    {
        match self {
            NodeRef::InternalNode(n) => n.is_branch(value),
            NodeRef::LeafNode(l) => l@ == seq![value],
        }
    }

    /// `after` is this node after a push of `value` below it: a leaf with one more value,
    /// or an internal node with the value below its last child or below a new one.
    pub open spec fn pushed(self, value: T, after: Self) -> bool {
        match self {
            NodeRef::InternalNode(n) => after matches NodeRef::InternalNode(m) && n.pushed(
                value,
                *m,
            ),
            NodeRef::LeafNode(l) => after matches NodeRef::LeafNode(m) && m@ == l@.push(value),
        }
    }

    /// No value can be pushed below the node: the last leaf below it is full, and so is
    /// each internal node on the way to that leaf.
    pub open spec fn full(self) -> bool
        decreases self,
    {
        match self {
            NodeRef::InternalNode(n) => n.full(),
            NodeRef::LeafNode(l) => l@.len() == super::constants::MAX_SIZE,
        }
    }
}

impl<T: Copy> NodeRef<T> {
    pub fn internal(internal_node: InternalNode<T>) -> (r: Self)
        ensures
            r == NodeRef::InternalNode(Arc::new(internal_node)),
    {
        NodeRef::InternalNode(Arc::new(internal_node))
    }

    pub fn leaf(leaf_node: LeafNode<T>) -> (r: Self)
        ensures
            r == NodeRef::LeafNode(Arc::new(leaf_node)),
    {
        NodeRef::LeafNode(Arc::new(leaf_node))
    }

    /// Another reference to the same node.
    pub fn share(&self) -> (r: Self)
        ensures
            r == *self,
    {
        match self {
            NodeRef::InternalNode(n) => NodeRef::InternalNode(share(n)),
            NodeRef::LeafNode(l) => NodeRef::LeafNode(share(l)),
        }
    }

    /// The node by its kind.
    pub fn as_ref(&self) -> (r: ConcreteNodeRef<'_, T>)
        ensures
            match r {
                ConcreteNodeRef::InternalNode(n) => *self == NodeRef::InternalNode(Arc::new(*n)),
                ConcreteNodeRef::LeafNode(l) => *self == NodeRef::LeafNode(Arc::new(*l)),
            },
    {
        match self {
            NodeRef::InternalNode(n) => ConcreteNodeRef::InternalNode(&**n),
            NodeRef::LeafNode(l) => ConcreteNodeRef::LeafNode(&**l),
        }
    }

    /// The internal node, if the node is one.
    pub fn as_internal(&self) -> (r: Option<&InternalNode<T>>)
        ensures
            match r {
                Some(n) => *self == NodeRef::InternalNode(Arc::new(*n)),
                None => self is LeafNode,
            },
    {
        match self {
            NodeRef::InternalNode(n) => Some(&**n),
            NodeRef::LeafNode(_) => None,
        }
    }

    /// The leaf, if the node is one.
    pub fn as_leaf(&self) -> (r: Option<&LeafNode<T>>)
        ensures
            match r {
                Some(l) => *self == NodeRef::LeafNode(Arc::new(*l)),
                None => self is InternalNode,
            },
    {
        match self {
            NodeRef::InternalNode(_) => None,
            NodeRef::LeafNode(l) => Some(&**l),
        }
    }

    /// The node with `value` behind its values, or nothing if the node is full.
    pub fn push_back(&self, value: T) -> (r: Option<Self>)
        requires
            self.wf(),
            self.seq().len() < usize::MAX,
            self.level_spec() <= usize::MAX,
        ensures
            match r {
                Some(node_ref) => {
                    &&& !self.full()
                    &&& node_ref.wf()
                    &&& node_ref.seq() == self.seq().push(value)
                    &&& node_ref.level_spec() == self.level_spec()
                    &&& self.pushed(value, node_ref)
                },
                None => self.full(),
            },
        decreases self,
    {
        match self {
            NodeRef::InternalNode(internal_node) => internal_node.push_back(value),
            NodeRef::LeafNode(leaf_node) => leaf_node.push_back(value),
        }
    }

    /// The number of internal nodes between the node and its leaves, itself included.
    pub fn level(&self) -> (l: usize)
        requires
            self.wf(),
            self.level_spec() <= usize::MAX,
        ensures
            l == self.level_spec(),
        decreases self,
    {
        match self {
            NodeRef::InternalNode(internal_node) => internal_node.level(),
            NodeRef::LeafNode(_) => 0,
        }
    }

    /// The number of values at and below the node.
    pub fn len(&self) -> (n: usize)
        requires
            self.wf(),
        ensures
            n == self.seq().len(),
    {
        match self {
            NodeRef::InternalNode(internal_node) => internal_node.len(),
            NodeRef::LeafNode(leaf_node) => leaf_node.len(),
        }
    }

    /// The value at position `index` below the node.
    pub fn index(&self, index: usize) -> (value: &T)
        requires
            self.wf(),
            index < self.seq().len(),
        ensures
            *value == self.seq()[index as int],
        decreases self,
    {
        match self {
            NodeRef::InternalNode(internal_node) => internal_node.index(index),
            NodeRef::LeafNode(leaf_node) => leaf_node.index(index),
        }
    }
}

impl<T: Copy> From<InternalNode<T>> for NodeRef<T> {
    fn from(internal_node: InternalNode<T>) -> (r: Self) {
        NodeRef::internal(internal_node)
    }
}

impl<T: Copy> vstd::std_specs::convert::FromSpecImpl<InternalNode<T>> for NodeRef<T> {
    open spec fn obeys_from_spec() -> bool {
        true
    }

    open spec fn from_spec(internal_node: InternalNode<T>) -> Self {
        NodeRef::InternalNode(Arc::new(internal_node))
    }
}

impl<T: Copy> From<LeafNode<T>> for NodeRef<T> {
    fn from(leaf_node: LeafNode<T>) -> (r: Self) {
        NodeRef::leaf(leaf_node)
    }
}

impl<T: Copy> vstd::std_specs::convert::FromSpecImpl<LeafNode<T>> for NodeRef<T> {
    open spec fn obeys_from_spec() -> bool {
        true
    }

    open spec fn from_spec(leaf_node: LeafNode<T>) -> Self {
        NodeRef::LeafNode(Arc::new(leaf_node))
    }
}

} // verus!
