use persistent::vec::internal_node::InternalNode;
use persistent::vec::leaf_node::LeafNode;
use persistent::vec::node_ref::ConcreteNodeRef;
use persistent::vec::node_ref::NodeRef;
use persistent::vec::slot::Slot;
use persistent::vec::utilities::create_branch;
use persistent::vec::IndexOutOfRange;
use persistent::vec::Vec;
use persistent::vector::Vector;

const ITERATIONS: usize = 2000;

#[test]
fn internal_node_new() {
    InternalNode::<usize>::new(&[]);
    InternalNode::new(&[LeafNode::new(&[42])]);
}

#[test]
fn internal_node_iterator() {
    let node_ref = InternalNode::new(&[LeafNode::new(&[42])]);
    let mut iter = node_ref.as_internal().unwrap().iter();
    let mut node_refs: std::vec::Vec<NodeRef<usize>> = vec![];

    while let Some(node_ref) = iter.next() {
        node_refs.push(node_ref);
    }

    assert_eq!(node_refs.len(), 1);

    let node_ref = InternalNode::new(&[LeafNode::new(&[42]), LeafNode::new(&[42])]);
    let mut iter = node_ref.as_internal().unwrap().iter();
    let mut node_refs: std::vec::Vec<NodeRef<usize>> = vec![];

    while let Some(node_ref) = iter.next() {
        node_refs.push(node_ref);
    }

    assert_eq!(node_refs.len(), 2);
}

#[test]
fn leaf_node_new() {
    LeafNode::<usize>::new(&[]);
    LeafNode::new(&[42]);
}

#[test]
fn leaf_node_iterator() {
    let node_ref = LeafNode::new(&[42]);
    let mut iter = node_ref.as_leaf().unwrap().iter();
    let mut values: std::vec::Vec<usize> = vec![];

    while let Some(value) = iter.next() {
        values.push(value);
    }

    assert_eq!(values.len(), 1);

    let node_ref = LeafNode::new(&[42, 42]);
    let mut iter = node_ref.as_leaf().unwrap().iter();
    let mut values: std::vec::Vec<usize> = vec![];

    while let Some(value) = iter.next() {
        values.push(value);
    }

    assert_eq!(values.len(), 2);
}

#[test]
fn new() {
    Vector::<usize>::new();
}

#[test]
fn push_back() {
    let mut vec = Vector::<usize>::new();

    for index in 0..1000 {
        vec = vec.push_back(index);

        assert_eq!(vec.len(), index + 1);
    }
}

#[test]
fn mod_push_back() {
    let mut vec = Vec::<usize>::new();

    for index in 0..ITERATIONS {
        vec = vec.push_back(index);

        assert_eq!(vec.len(), index + 1);
    }
}

#[test]
fn index() {
    let mut vec = Vec::<usize>::new();

    for value in 0..ITERATIONS {
        vec = vec.push_back(value);

        for index in 0..(value + 1) {
            assert_eq!(vec[index], index);
        }
    }
}

#[test]
fn mod_iterator() {
    let mut vec = Vec::<usize>::new();
    let mut std_vec = vec![];

    for value in 0..ITERATIONS {
        vec = vec.push_back(value);
        std_vec.push(value);
    }

    let mut values: std::vec::Vec<usize> = vec![];
    let mut iterator = vec.iter();

    while let Some(value) = iterator.next() {
        values.push(value);
    }

    assert_eq!(values, std_vec)
}

#[test]
fn an_empty_vector_has_no_values() {
    let vec = Vec::<u8>::new();

    assert_eq!(vec.len(), 0);
    assert!(vec.is_empty());
    assert_eq!(vec.at(0), Err(IndexOutOfRange { index: 0, len: 0 }));
    assert_eq!(vec.iter().next(), None);
}

#[test]
fn a_push_leaves_the_old_vector_as_it_was() {
    let mut vec = Vec::<usize>::new();

    for value in 0..100 {
        vec = vec.push_back(value);
    }

    let longer = vec.push_back(7);

    assert_eq!(vec.len(), 100);
    assert_eq!(longer.len(), 101);
    assert_eq!(longer.at(100), Ok(7));
    assert_eq!(vec.at(100), Err(IndexOutOfRange { index: 100, len: 100 }));

    for index in 0..100 {
        assert_eq!(longer.at(index), Ok(index));
        assert_eq!(vec.at(index), Ok(index));
    }

    assert!(!longer.is_empty());
}

#[test]
fn the_trie_grows_with_the_33rd_push() {
    let mut vec = Vec::<usize>::new();

    for value in 0..32 {
        vec = vec.push_back(value);
        assert!(vec.root().as_leaf().is_some());
        assert_eq!(vec.root().level(), 0);
    }

    let vec = vec.push_back(32);

    assert_eq!(vec.len(), 33);
    assert!(vec.root().as_internal().is_some());
    assert_eq!(vec.root().level(), 1);
    assert_eq!(vec.root().as_internal().unwrap().size(), 2);
    assert_eq!(vec.at(32), Ok(32));
    assert_eq!(vec.at(33), Err(IndexOutOfRange { index: 33, len: 33 }));
}

#[test]
fn the_trie_grows_again_when_the_root_is_full() {
    let mut vec = Vec::<usize>::new();

    for value in 0..1024 {
        vec = vec.push_back(value);
    }

    assert_eq!(vec.root().level(), 1);
    assert_eq!(vec.root().as_internal().unwrap().size(), 32);
    assert!(vec.root().as_internal().unwrap().balanced());

    let vec = vec.push_back(1024);

    assert_eq!(vec.root().level(), 2);
    assert_eq!(vec.root().len(), 1025);

    let root = vec.root().as_internal().unwrap();

    assert_eq!(root.size(), 2);
    assert!(root.balanced());
    assert_eq!(root.get(0).accumulated_len(), 1024);
    assert_eq!(root.get(1).accumulated_len(), 1025);
    assert_eq!(root.get(1).node_ref().level(), 1);
    assert_eq!(root.get(1).node_ref().len(), 1);
    assert_eq!(vec[1024], 1024);
    assert_eq!(vec[1023], 1023);
}

#[test]
fn append_puts_the_values_of_the_other_behind() {
    let mut a = Vec::<usize>::new();
    let mut b = Vec::<usize>::new();

    for value in 0..70 {
        a = a.push_back(value);
    }

    for value in 70..200 {
        b = b.push_back(value);
    }

    let c = a.append(&b);

    assert_eq!(c.len(), 200);
    assert_eq!(a.len(), 70);
    assert_eq!(b.len(), 130);

    for index in 0..200 {
        assert_eq!(c[index], index);
    }

    assert_eq!(a.append(&Vec::new()).len(), 70);
    assert_eq!(Vec::new().append(&b)[0], 70);
}

#[test]
fn a_leaf_takes_32_values() {
    let values: std::vec::Vec<usize> = (0..31).collect();
    let node_ref = LeafNode::new(&values);
    let leaf = node_ref.as_leaf().unwrap();

    assert_eq!(leaf.len(), 31);

    let full = leaf.push_back(31).unwrap();

    assert_eq!(full.len(), 32);
    assert_eq!(*full.index(31), 31);
    assert_eq!(full.as_leaf().unwrap().get(0), 0);
    assert!(full.as_leaf().unwrap().push_back(32).is_none());
    assert!(full.push_back(32).is_none());
    assert_eq!(leaf.len(), 31);
}

#[test]
fn leaves_with_the_same_values_are_equal() {
    let a = LeafNode::new(&[1, 2, 3]);
    let b = LeafNode::new(&[1, 2]);
    let c = b.as_leaf().unwrap().push_back(3).unwrap();

    assert!(a.as_leaf().unwrap() == c.as_leaf().unwrap());
    assert!(a.as_leaf().unwrap() != b.as_leaf().unwrap());
    assert!(a.as_leaf().unwrap() != LeafNode::new(&[1, 2, 4]).as_leaf().unwrap());
}

#[test]
fn a_branch_holds_one_value_below_a_chain() {
    let branch = create_branch(9usize, 3);

    assert_eq!(branch.level(), 3);
    assert_eq!(branch.len(), 1);
    assert_eq!(*branch.index(0), 9);

    let mut node_ref = branch;

    for level in (1..4).rev() {
        let child = {
            let node = node_ref.as_internal().unwrap();

            assert_eq!(node.size(), 1);
            assert_eq!(node.level(), level);
            assert_eq!(node.len(), 1);

            node.get(0).node_ref()
        };

        node_ref = child;
    }

    assert_eq!(node_ref.as_leaf().unwrap().len(), 1);
    assert_eq!(create_branch(9usize, 0).level(), 0);
}

#[test]
fn an_internal_node_counts_the_values_up_to_each_child() {
    let node_ref = InternalNode::new(&[
        LeafNode::new(&[1, 2, 3]),
        LeafNode::new(&[4]),
        LeafNode::new(&[5, 6]),
    ]);
    let node = node_ref.as_internal().unwrap();

    assert_eq!(node.size(), 3);
    assert_eq!(node.len(), 6);
    assert_eq!(node.get(0).accumulated_len(), 3);
    assert_eq!(node.get(1).accumulated_len(), 4);
    assert_eq!(node.get(2).accumulated_len(), 6);
    assert_eq!(node.level(), 1);
    assert!(node.balanced());

    for index in 0..6 {
        assert_eq!(*node.index(index), index + 1);
        assert_eq!(*node_ref.index(index), index + 1);
    }

    let pushed = node.push_back(7).unwrap();

    assert_eq!(pushed.len(), 7);
    assert_eq!(*pushed.index(6), 7);
    assert_eq!(pushed.as_internal().unwrap().size(), 3);
    assert_eq!(node.len(), 6);
}

#[test]
fn an_internal_node_with_children_of_two_levels_is_not_balanced() {
    let node_ref = InternalNode::new(&[create_branch(1, 1), LeafNode::new(&[2])]);

    assert!(!node_ref.as_internal().unwrap().balanced());
}

#[test]
fn a_slot_adds_the_length_of_its_node() {
    let slot = Slot::new(LeafNode::new(&[1, 2, 3]), 10);

    assert_eq!(slot.accumulated_len(), 13);
    assert_eq!(slot.node_ref().len(), 3);
}

#[test]
fn a_node_is_seen_by_its_kind() {
    let leaf = LeafNode::new(&[1]);
    let internal = InternalNode::new(&[LeafNode::new(&[1])]);

    assert!(matches!(leaf.as_ref(), ConcreteNodeRef::LeafNode(_)));
    assert!(matches!(internal.as_ref(), ConcreteNodeRef::InternalNode(_)));
    assert!(leaf.as_internal().is_none());
    assert!(internal.as_leaf().is_none());
}
