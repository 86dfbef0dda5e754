use super::constants::MAX_SIZE;
use super::node_ref::NodeRef;
use super::slot::Slot;
use super::utilities::create_branch;
use std::sync::Arc;
use vstd::prelude::*;

verus! {

/// An internal node of the trie: up to 32 children in the order of their positions, each
/// with the number of values up to it.
#[derive(Clone, Debug)]
pub struct InternalNode<T> {
    slots: Vec<Slot<T>>,
}

impl<T> View for InternalNode<T> {
    type V = Seq<T>;

    open spec fn view(&self) -> Seq<T> {
        self.seq()
    }
}

/// The values below the nodes of `refs`, in order.
pub open spec fn concat<T>(refs: Seq<NodeRef<T>>) -> Seq<T>
    decreases refs.len(),
{
    if refs.len() == 0 {
        Seq::empty()
    } else {
        concat(refs.drop_last()) + refs.last().seq()
    }
}

impl<T> InternalNode<T> {
    /// The children, with the count of each.
    pub closed spec fn slots(&self) -> Seq<Slot<T>> {
        self.slots@
    }

    /// The children, in the order of their positions.
    pub open spec fn children(&self) -> Seq<NodeRef<T>> {
        Seq::new(self.slots().len(), |i: int| self.slots()[i].node_ref)
    }

    /// The values below the node, in the order of their positions.
    pub closed spec fn seq(&self) -> Seq<T>
        decreases self, self.slots().len() + 1,
    {
        self.seq_upto(self.slots@.len())
    }

    /// The values below the first `n` children.
    spec fn seq_upto(&self, n: nat) -> Seq<T>
        decreases self, n,
    {
        if n == 0 || n > self.slots@.len() {
            Seq::empty()
        } else {
            self.seq_upto((n - 1) as nat) + self.slots@[n - 1].node_ref.seq()
        }
    }

    /// One more than the level of the last child.
    pub closed spec fn level_spec(&self) -> nat
        decreases self,
    {
        if self.slots@.len() == 0 {
            1
        } else {
            self.slots@[self.slots@.len() - 1].node_ref.level_spec() + 1
        }
    }

    /// All children are of one level.
    pub closed spec fn balanced_spec(&self) -> bool {
        forall|i: int|
            0 <= i < self.slots@.len() ==> (#[trigger] self.slots@[i]).node_ref.level_spec() + 1
                == self.level_spec()
    }

    /// Each child is well-formed, and its count is the number of values below the
    /// children up to it.
    pub closed spec fn counted(&self) -> bool
        decreases self, 0nat,
    {
        forall|i: int|
            0 <= i < self.slots@.len() ==> (#[trigger] self.slots@[i]).node_ref.wf()
                && self.slots@[i].accumulated_len == self.seq_upto((i + 1) as nat).len()
    }

    /// The node has between 1 and 32 children, all well-formed, counted and of one level.
    pub open spec fn wf(&self) -> bool
        decreases self, 1nat,
    {
        &&& 1 <= self.slots().len() <= MAX_SIZE
        &&& self.counted()
        &&& self.balanced_spec()
    }

    /// The node has 32 children, and nothing can be pushed below the last.
    pub closed spec fn full(&self) -> bool
        decreases self,
    {
        &&& self.slots@.len() == MAX_SIZE
        &&& self.slots@[self.slots@.len() - 1].node_ref.full()
    }

    /// The node is the top of a minimal branch with `value`: it has one child, and that
    /// child is a minimal branch with `value`.
    pub closed spec fn is_branch(&self, value: T) -> bool
        decreases self,
    {
        &&& self.slots@.len() == 1
        &&& self.slots@[0].node_ref.is_branch(value)
    }

    /// `after` is this node after a push of `value`: where the last child is not full,
    /// that child alone differs; where it is, `after` has this node's children and behind
    /// them a minimal branch with `value`.
    pub open spec fn pushed(&self, value: T, after: Self) -> bool {
        let size = self.slots().len() as int;
        if self.slots()[size - 1].node_ref.full() {
            &&& after.slots().len() == size + 1
            &&& forall|i: int| 0 <= i < size ==> after.slots()[i] == self.slots()[i]
            &&& after.slots()[size].node_ref.is_branch(value)
        } else {
            &&& after.slots().len() == size
            &&& forall|i: int| 0 <= i < size - 1 ==> after.slots()[i] == self.slots()[i]
            &&& after.slots()[size - 1].node_ref.seq() == self.slots()[size - 1].node_ref.seq().push(
                value,
            )
        }
    }
}

impl<T: Copy> InternalNode<T> {
    /// An internal node with the nodes of `node_refs` as its children.
    pub fn new(node_refs: &[NodeRef<T>]) -> (r: NodeRef<T>)
        requires
            node_refs@.len() <= MAX_SIZE,
            forall|i: int| 0 <= i < node_refs@.len() ==> (#[trigger] node_refs@[i]).wf(),
            concat(node_refs@).len() <= usize::MAX,
        ensures
            r matches NodeRef::InternalNode(n) && {
                &&& n.slots().len() == node_refs@.len()
                &&& forall|i: int|
                    0 <= i < node_refs@.len() ==> (#[trigger] n.slots()[i]).node_ref
                        == node_refs@[i]
                &&& n.counted()
                &&& n.seq() == concat(node_refs@)
            },
            r.seq() == concat(node_refs@),
    {
        let mut internal_node = Self { slots: Vec::new() };
        let mut i: usize = 0;
        while i < node_refs.len()
            invariant
                i <= node_refs@.len() <= MAX_SIZE,
                forall|j: int| 0 <= j < node_refs@.len() ==> (#[trigger] node_refs@[j]).wf(),
                concat(node_refs@).len() <= usize::MAX,
                internal_node.slots@.len() == i,
                forall|j: int|
                    0 <= j < i ==> (#[trigger] internal_node.slots@[j]).node_ref == node_refs@[j],
                internal_node.counted(),
            decreases node_refs@.len() - i,
        {
            proof {
                internal_node.lemma_seq_upto_concat(node_refs@, i as nat);
                lemma_concat_prefix(node_refs@, (i + 1) as nat);
                assert(node_refs@.take(i + 1).drop_last() =~= node_refs@.take(i as int));
            }
            internal_node.append_slot(node_refs[i].share());
            i += 1;
        }
        proof {
            internal_node.lemma_seq_upto_concat(node_refs@, i as nat);
            assert(node_refs@.take(i as int) =~= node_refs@);
        }
        NodeRef::InternalNode(Arc::new(internal_node))
    }

    /// The node with `value` behind its values, or nothing if the node is full: the
    /// value goes below the last child, or, where that one is full, below a new child.
    pub fn push_back(&self, value: T) -> (r: Option<NodeRef<T>>)
        requires
            self.wf(),
            self.seq().len() < usize::MAX,
            self.level_spec() <= usize::MAX,
        ensures
            match r {
                Some(node_ref) => {
                    &&& !self.full()
                    &&& node_ref.wf()
                    &&& node_ref.seq() == self.seq().push(value)
                    &&& node_ref.level_spec() == self.level_spec()
                    &&& node_ref matches NodeRef::InternalNode(n)
                    &&& self.pushed(value, *n)
                },
                None => self.full(),
            },
        decreases self,
    {
        let size: usize = self.slots.len();
        let ghost last = self.slots@[size - 1];
        proof {
            self.lemma_seq_upto_prefix((size - 1) as nat, size as nat);
            assert(last.node_ref.wf());
            assert(last.node_ref.level_spec() + 1 == self.level_spec());
        }
        match self.slots[size - 1].node_ref.push_back(value) {
            None => {
                if size == MAX_SIZE {
                    None
                } else {
                    let mut internal_node = self.copy();
                    let branch: NodeRef<T> = create_branch(value, self.level() - 1);
                    internal_node.append_slot(branch);
                    proof {
                        assert(internal_node.slots@ =~= self.slots@.push(
                            internal_node.slots@[size as int],
                        ));
                        internal_node.lemma_seq_upto_same(self, size as nat);
                        assert(internal_node.seq() =~= self.seq().push(value));
                        assert forall|i: int| 0 <= i < internal_node.slots@.len() implies (
                        #[trigger] internal_node.slots@[i]).node_ref.level_spec() + 1
                            == internal_node.level_spec() by {
                            if i < size {
                                assert(internal_node.slots@[i] == self.slots@[i]);
                            }
                        }
                    }
                    Some(NodeRef::InternalNode(Arc::new(internal_node)))
                }
            },
            Some(node_ref) => {
                let mut internal_node = self.copy();
                proof {
                    internal_node.lemma_same(self);
                }
                internal_node.update_slot(node_ref);
                proof {
                    internal_node.lemma_seq_upto_same(self, (size - 1) as nat);
                    assert(internal_node.seq() =~= self.seq().push(value));
                    assert forall|i: int| 0 <= i < internal_node.slots@.len() implies (
                    #[trigger] internal_node.slots@[i]).node_ref.level_spec() + 1
                        == internal_node.level_spec() by {
                        if i < size - 1 {
                            assert(internal_node.slots@[i] == self.slots@[i]);
                        }
                    }
                }
                Some(NodeRef::InternalNode(Arc::new(internal_node)))
            },
        }
    }

    /// The number of values below the node.
    pub fn len(&self) -> (n: usize)
        requires
            self.counted(),
        ensures
            n == self.seq().len(),
    {
        if self.slots.len() == 0 {
            0
        } else {
            self.slots[self.slots.len() - 1].accumulated_len()
        }
    }

    /// The number of children.
    pub fn size(&self) -> (n: usize)
        ensures
            n == self.slots().len(),
    {
        self.slots.len()
    }

    /// The child at `index`, with its count.
    pub fn get(&self, index: usize) -> (slot: Slot<T>)
        requires
            index < self.slots().len(),
        ensures
            slot == self.slots()[index as int],
    {
        Slot {
            node_ref: self.slots[index].node_ref(),
            accumulated_len: self.slots[index].accumulated_len(),
        }
    }

    /// One more than the level of the last child.
    pub fn level(&self) -> (l: usize)
        requires
            self.wf(),
            self.level_spec() <= usize::MAX,
        ensures
            l == self.level_spec(),
        decreases self,
    {
        assert(self.slots@[self.slots@.len() - 1].node_ref.wf());
        self.slots[self.slots.len() - 1].node_ref.level() + 1
    }

    /// Whether all children are of one level.
    pub fn balanced(&self) -> (r: bool)
        requires
            self.slots().len() >= 1,
            forall|i: int|
                0 <= i < self.slots().len() ==> (#[trigger] self.slots()[i]).node_ref.wf()
                    && self.slots()[i].node_ref.level_spec() <= usize::MAX,
        ensures
            r == self.balanced_spec(),
    {
        let size: usize = self.slots.len();
        let level: usize = self.slots[size - 1].node_ref.level();
        let mut i: usize = 0;
        while i < size
            invariant
                size == self.slots@.len(),
                i <= size,
                level + 1 == self.level_spec(),
                forall|j: int|
                    0 <= j < size ==> (#[trigger] self.slots@[j]).node_ref.wf()
                        && self.slots@[j].node_ref.level_spec() <= usize::MAX,
                forall|j: int|
                    0 <= j < i ==> (#[trigger] self.slots@[j]).node_ref.level_spec() + 1
                        == self.level_spec(),
            decreases size - i,
        {
            if self.slots[i].node_ref.level() != level {
                return false;
            }
            i += 1;
        }
        true
    }

    /// The value at position `index` below the node.
    pub fn index(&self, index: usize) -> (value: &T)
        requires
            self.wf(),
            index < self.seq().len(),
        ensures
            *value == self.seq()[index as int],
        decreases self,
    {
        let size: usize = self.slots.len();
        let mut k: usize = 0;
        while self.slots[k].accumulated_len <= index
            invariant
                size == self.slots@.len(),
                self.counted(),
                index < self.seq().len(),
                k < size,
                k > 0 ==> self.slots@[k - 1].accumulated_len <= index,
            decreases size - k,
        {
            proof {
                if k == size - 1 {
                    assert(self.slots@[k as int].accumulated_len == self.seq_upto(
                        (k + 1) as nat,
                    ).len());
                }
            }
            k += 1;
        }
        let before: usize = if k == 0 {
            0
        } else {
            self.slots[k - 1].accumulated_len
        };
        proof {
            let below = self.slots@[k as int].node_ref.seq();
            assert(self.slots@[k as int].accumulated_len == self.seq_upto((k + 1) as nat).len());
            if k > 0 {
                assert(self.slots@[k - 1].accumulated_len == self.seq_upto(k as nat).len());
            }
            assert(self.seq_upto((k + 1) as nat) == self.seq_upto(k as nat) + below);
            self.lemma_seq_upto_prefix((k + 1) as nat, size as nat);
            assert(self.seq()[index as int] == self.seq_upto((k + 1) as nat)[index as int]);
            assert(self.slots@[k as int].node_ref.wf());
        }
        self.slots[k].node_ref.index(index - before)
    }

    /// A walk over the children, from the first.
    pub fn iter(&self) -> (r: InternalNodeIterator<'_, T>)
        ensures
            r.wf(),
            r.remaining() == self.children(),
    {
        let r = InternalNodeIterator { internal_node: self, index: 0 };
        assert(r.remaining() =~= self.children());
        r
    }

    /// A node with the same children.
    fn copy(&self) -> (r: Self)
        ensures
            r.slots@ == self.slots@,
            r.seq() == self.seq(),
            r.level_spec() == self.level_spec(),
            r.counted() == self.counted(),
            r.balanced_spec() == self.balanced_spec(),
    {
        let mut slots: Vec<Slot<T>> = Vec::new();
        let mut i: usize = 0;
        while i < self.slots.len()
            invariant
                i <= self.slots@.len(),
                slots@ == self.slots@.take(i as int),
            decreases self.slots@.len() - i,
        {
            slots.push(self.get(i));
            i += 1;
            assert(slots@ =~= self.slots@.take(i as int));
        }
        assert(slots@ =~= self.slots@);
        let r = Self { slots };
        proof {
            r.lemma_same(self);
        }
        r
    }

    /// Puts `node_ref` behind the children.
    fn append_slot(&mut self, node_ref: NodeRef<T>)
        requires
            old(self).counted(),
            node_ref.wf(),
            old(self).seq().len() + node_ref.seq().len() <= usize::MAX,
        ensures
            final(self).counted(),
            final(self).slots@.len() == old(self).slots@.len() + 1,
            forall|i: int|
                0 <= i < old(self).slots@.len() ==> final(self).slots@[i] == old(self).slots@[i],
            final(self).slots@[old(self).slots@.len() as int].node_ref == node_ref,
            final(self).seq() == old(self).seq() + node_ref.seq(),
    {
        let len: usize = self.len();
        let ghost before = *self;
        self.slots.push(Slot::new(node_ref, len));
        proof {
            let n = before.slots@.len();
            self.lemma_seq_upto_same(&before, n);
            assert forall|i: int| 0 <= i < self.slots@.len() implies (
            #[trigger] self.slots@[i]).node_ref.wf() && self.slots@[i].accumulated_len
                == self.seq_upto((i + 1) as nat).len() by {
                if i < n {
                    assert(self.slots@[i] == before.slots@[i]);
                    self.lemma_seq_upto_same(&before, (i + 1) as nat);
                }
            }
        }
    }

    /// Puts `node_ref` in the place of the last child.
    fn update_slot(&mut self, node_ref: NodeRef<T>)
        requires
            old(self).counted(),
            old(self).slots@.len() > 0,
            node_ref.wf(),
            old(self).seq_upto((old(self).slots@.len() - 1) as nat).len() + node_ref.seq().len()
                <= usize::MAX,
        ensures
            final(self).counted(),
            final(self).slots@.len() == old(self).slots@.len(),
            forall|i: int|
                0 <= i < old(self).slots@.len() - 1 ==> final(self).slots@[i] == old(
                    self,
                ).slots@[i],
            final(self).slots@[old(self).slots@.len() - 1].node_ref == node_ref,
            final(self).seq() == old(self).seq_upto((old(self).slots@.len() - 1) as nat)
                + node_ref.seq(),
    {
        let size: usize = self.slots.len();
        let before_len: usize = if size == 1 {
            0
        } else {
            self.slots[size - 2].accumulated_len()
        };
        let ghost before = *self;
        proof {
            if size > 1 {
                assert(before.slots@[size - 2].accumulated_len == before.seq_upto(
                    (size - 1) as nat,
                ).len());
            }
        }
        self.slots.set(size - 1, Slot::new(node_ref, before_len));
        proof {
            self.lemma_seq_upto_same(&before, (size - 1) as nat);
            assert forall|i: int| 0 <= i < self.slots@.len() implies (
            #[trigger] self.slots@[i]).node_ref.wf() && self.slots@[i].accumulated_len
                == self.seq_upto((i + 1) as nat).len() by {
                if i < size - 1 {
                    assert(self.slots@[i] == before.slots@[i]);
                    self.lemma_seq_upto_same(&before, (i + 1) as nat);
                }
            }
        }
    }
}

/// A walk over the children of an internal node, in the order of their positions.
#[derive(Clone, Debug)]
pub struct InternalNodeIterator<'a, T> {
    internal_node: &'a InternalNode<T>,
    index: usize,
}

impl<'a, T: Copy> InternalNodeIterator<'a, T> {
    /// The walk has not gone past the last child.
    pub closed spec fn wf(&self) -> bool {
        self.index <= self.internal_node.slots().len()
    }

    /// The children that the walk has yet to give, in order.
    pub closed spec fn remaining(&self) -> Seq<NodeRef<T>> {
        self.internal_node.children().skip(self.index as int)
    }

    /// Gives the next child, if one is left, and moves past it.
    pub fn next(&mut self) -> (r: Option<NodeRef<T>>)
        requires
            old(self).wf(),
        ensures
            final(self).wf(),
            match r {
                Some(node_ref) => {
                    &&& old(self).remaining().len() > 0
                    &&& node_ref == old(self).remaining()[0]
                    &&& final(self).remaining() == old(self).remaining().skip(1)
                },
                None => {
                    &&& old(self).remaining().len() == 0
                    &&& final(self).remaining() == old(self).remaining()
                },
            },
    {
        if self.index == self.internal_node.size() {
            None
        } else {
            let node_ref: NodeRef<T> = self.internal_node.get(self.index).node_ref();
            self.index += 1;
            proof {
                assert(final(self).remaining() =~= old(self).remaining().skip(1));
            }
            Some(node_ref)
        }
    }
}

impl<T> InternalNode<T> {
    /// A node with between 1 and 32 counted children of one level is well-formed, one
    /// level above its children, and full exactly if it has 32 children and the last is
    /// full.
    pub proof fn lemma_wf(&self)
        requires
            1 <= self.slots().len() <= MAX_SIZE,
            self.counted(),
            forall|i: int|
                0 <= i < self.slots().len() ==> (#[trigger] self.slots()[i]).node_ref.level_spec()
                    == self.slots()[0].node_ref.level_spec(),
        ensures
            self.wf(),
            self.level_spec() == self.slots()[0].node_ref.level_spec() + 1,
            self.full() <==> self.slots().len() == MAX_SIZE && self.slots()[self.slots().len()
                - 1].node_ref.full(),
    {
        assert(self.slots@[self.slots@.len() - 1].node_ref.level_spec()
            == self.slots()[0].node_ref.level_spec());
    }

    /// What it is for an internal node to be the top of a minimal branch.
    pub proof fn lemma_is_branch(&self, value: T)
        ensures
            self.is_branch(value) <==> self.slots().len() == 1
                && self.slots()[0].node_ref.is_branch(value),
    {
    }

    /// The first `m` children hold a prefix of what the first `n` hold.
    proof fn lemma_seq_upto_prefix(&self, m: nat, n: nat)
        requires
            m <= n <= self.slots@.len(),
        ensures
            self.seq_upto(m).len() <= self.seq_upto(n).len(),
            self.seq_upto(m) == self.seq_upto(n).take(self.seq_upto(m).len() as int),
        decreases n,
    {
        if m < n {
            self.lemma_seq_upto_prefix(m, (n - 1) as nat);
        }
        assert(self.seq_upto(m) =~= self.seq_upto(n).take(self.seq_upto(m).len() as int));
    }

    /// Two nodes with the same first `n` children hold the same below them.
    proof fn lemma_seq_upto_same(&self, other: &Self, n: nat)
        requires
            n <= self.slots@.len(),
            n <= other.slots@.len(),
            forall|i: int| 0 <= i < n ==> self.slots@[i] == other.slots@[i],
        ensures
            self.seq_upto(n) == other.seq_upto(n),
        decreases n,
    {
        if n > 0 {
            self.lemma_seq_upto_same(other, (n - 1) as nat);
        }
    }

    /// Two nodes with the same children are alike in all that is said of them.
    proof fn lemma_same(&self, other: &Self)
        requires
            self.slots@ == other.slots@,
        ensures
            self.seq() == other.seq(),
            forall|n: nat| n <= self.slots@.len() ==> self.seq_upto(n) == other.seq_upto(n),
            self.level_spec() == other.level_spec(),
            self.counted() == other.counted(),
            self.balanced_spec() == other.balanced_spec(),
            self.full() == other.full(),
    {
        assert forall|n: nat| n <= self.slots@.len() implies self.seq_upto(n) == other.seq_upto(
            n,
        ) by {
            self.lemma_seq_upto_same(other, n);
        }
        if self.counted() {
            assert forall|i: int| 0 <= i < other.slots@.len() implies (
            #[trigger] other.slots@[i]).node_ref.wf() && other.slots@[i].accumulated_len
                == other.seq_upto((i + 1) as nat).len() by {
                assert(self.slots@[i].node_ref.wf());
            }
        }
        if other.counted() {
            assert forall|i: int| 0 <= i < self.slots@.len() implies (
            #[trigger] self.slots@[i]).node_ref.wf() && self.slots@[i].accumulated_len
                == self.seq_upto((i + 1) as nat).len() by {
                assert(other.slots@[i].node_ref.wf());
            }
        }
    }

    /// What the first `n` children hold is what their nodes hold one after another.
    proof fn lemma_seq_upto_concat(&self, refs: Seq<NodeRef<T>>, n: nat)
        requires
            n <= self.slots@.len(),
            n <= refs.len(),
            forall|i: int| 0 <= i < n ==> self.slots@[i].node_ref == refs[i],
        ensures
            self.seq_upto(n) == concat(refs.take(n as int)),
        decreases n,
    {
        if n > 0 {
            self.lemma_seq_upto_concat(refs, (n - 1) as nat);
            assert(refs.take(n as int).drop_last() =~= refs.take(n - 1));
        }
    }
}

/// The values below the first `n` nodes are among those below all of them.
pub proof fn lemma_concat_prefix<T>(refs: Seq<NodeRef<T>>, n: nat)
    requires
        n <= refs.len(),
    ensures
        concat(refs.take(n as int)).len() <= concat(refs).len(),
    decreases refs.len(),
{
    if n < refs.len() {
        lemma_concat_prefix(refs.drop_last(), n);
        assert(refs.drop_last().take(n as int) =~= refs.take(n as int));
    } else {
        assert(refs.take(n as int) =~= refs);
    }
}

} // verus!
