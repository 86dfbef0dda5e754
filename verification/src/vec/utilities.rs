use super::internal_node::InternalNode;
use super::leaf_node::LeafNode;
use super::node_ref::NodeRef;
use vstd::prelude::*;

verus! {

/// A minimal branch of `level` that holds `value`: a leaf with the one value, below a
/// chain of `level` internal nodes with one child each.
pub fn create_branch<T: Copy>(value: T, level: usize) -> (r: NodeRef<T>)
    ensures
        r.wf(),
        r.seq() == seq![value],
        r.level_spec() == level,
        r.is_branch(value),
        !r.full(),
    decreases level,
{
    if level == 0 {
        let values: [T; 1] = [value];
        let r = LeafNode::new(values.as_slice());
        assert(r.seq() =~= seq![value]);
        r
    } else {
        let node_refs: [NodeRef<T>; 1] = [create_branch(value, level - 1)];
        proof {
            let refs = node_refs@;
            reveal_with_fuel(super::internal_node::concat, 2);
            assert(super::internal_node::concat(refs) =~= seq![value]);
        }
        let r = InternalNode::new(node_refs.as_slice());
        proof {
            match &r {
                NodeRef::InternalNode(n) => {
                    n.lemma_wf();
                    n.lemma_is_branch(value);
                },
                NodeRef::LeafNode(_) => {},
            }
        }
        r
    }
}

} // verus!
