use sled_node::link::Link;
use sled_node::node::Node;
use sled_node::nonzero::NonZeroU64;

fn leaf(items: &[(&[u8], &[u8])]) -> Node {
    Node::new(&[], None, 0, false, None, items)
}

fn pairs(node: &Node) -> Vec<(Vec<u8>, Vec<u8>)> {
    node.iter().iter().map(|(k, v)| (k.to_vec(), v.to_vec())).collect()
}

fn owned(items: &[(&[u8], &[u8])]) -> Vec<(Vec<u8>, Vec<u8>)> {
    items.iter().map(|(k, v)| (k.to_vec(), v.to_vec())).collect()
}

fn index(children: &[(&[u8], u64)]) -> Node {
    let bytes: Vec<[u8; 8]> = children.iter().map(|(_, pid)| pid.to_le_bytes()).collect();
    let items: Vec<(&[u8], &[u8])> =
        children.iter().zip(bytes.iter()).map(|((k, _), b)| (*k, &b[..])).collect();
    Node::new(&[], None, 0, true, None, &items)
}

/// Nodes with every mix of fixed and varying lengths.
fn samples() -> Vec<Node> {
    vec![
        leaf(&[(&[2], &[1]), (&[4], &[2]), (&[6], &[3])]),
        leaf(&[(&[2], &[1]), (&[4], &[2, 2]), (&[6], &[])]),
        leaf(&[(&[2], &[1]), (&[4, 4], &[2]), (&[6], &[3])]),
        leaf(&[(&[2], &[1]), (&[4, 4], &[2, 2]), (&[6], &[])]),
    ]
}

#[test]
fn insertion_everywhere() {
    for node in samples() {
        for (at, key) in [(0, vec![1]), (1, vec![3]), (2, vec![5, 5]), (3, vec![7])] {
            for value in [vec![9], vec![], vec![8; 300]] {
                let after = node.insert(&key, &value);
                let mut expected = pairs(&node);
                expected.insert(at, (key.clone(), value.clone()));
                assert_eq!(pairs(&after), expected);
                assert!(after.is_sorted());
                assert_eq!(after.find(&key), Ok(at));
                assert_eq!(after.len(), 4);
                // removing the key again gives back the items
                assert_eq!(pairs(&after.remove_index(at)), pairs(&node));
            }
        }
    }
}

#[test]
fn removal_everywhere() {
    for node in samples() {
        for at in 0..3 {
            let after = node.remove_index(at);
            let mut expected = pairs(&node);
            let (gone, _) = expected.remove(at);
            assert_eq!(pairs(&after), expected);
            assert!(!after.contains_key(&gone));
            assert!(after.is_sorted());
        }
        let none = node.remove_index(0).remove_index(0).remove_index(0);
        assert!(none.is_empty());
        assert_eq!(none.buf, Vec::<u8>::new());
        // an empty node takes keys again
        assert_eq!(pairs(&none.insert(&[7, 7], &[])), owned(&[(&[7, 7], &[])]));
    }
}

#[test]
fn replacement_everywhere() {
    for node in samples() {
        for at in 0..3 {
            for value in [vec![], vec![9], vec![9, 9], vec![8; 300], vec![8; 70_000]] {
                let after = node.replace(at, &value);
                let mut expected = pairs(&node);
                expected[at].1 = value.clone();
                assert_eq!(pairs(&after), expected);
                assert!(after.is_sorted());
                let back = after.replace(at, node.index_value(at));
                assert_eq!(pairs(&back), pairs(&node));
            }
        }
    }
}

#[test]
fn bounds_survive_updates() {
    let node = Node::new(
        &[1],
        Some(&[9, 9]),
        0,
        false,
        NonZeroU64::new(77),
        &[(&[2], &[1]), (&[4], &[2, 2])],
    );
    for after in [
        node.insert(&[3], &[5]),
        node.insert(&[3, 3], &[5; 400]),
        node.remove_index(1),
        node.replace(0, &[7, 7, 7]),
        node.replace(0, &[7]),
    ] {
        assert_eq!(after.lo(), &[1]);
        assert_eq!(after.hi(), Some(&[9_u8, 9][..]));
        assert_eq!(after.header.next.unwrap().get(), 77);
    }
}

#[test]
fn bytes_after_an_update_in_shape() {
    // with offsets of one byte, and room for more of them
    let node = leaf(&[(&[2], &[1]), (&[4, 4], &[2, 2])]);
    assert_eq!(node.buf, vec![0, 4, 1, 2, 1, 1, 2, 4, 4, 2, 2, 2]);
    let after = node.insert(&[3], &[]);
    assert_eq!(after.buf, vec![0, 4, 7, 1, 2, 1, 1, 1, 3, 0, 2, 4, 4, 2, 2, 2]);
    let after = node.replace(0, &[7, 7, 7]);
    assert_eq!(after.buf, vec![0, 6, 1, 2, 3, 7, 7, 7, 2, 4, 4, 2, 2, 2]);
    let after = node.replace(0, &[6]);
    assert_eq!(after.buf, vec![0, 4, 1, 2, 1, 6, 2, 4, 4, 2, 2, 2]);
    let after = node.remove_index(0);
    assert_eq!(after.buf, vec![0, 2, 4, 4, 2, 2, 2]);
}

#[test]
fn replacement_with_fixed_keys_keeps_the_keys() {
    let node = leaf(&[(&[2], &[1]), (&[4], &[2, 2]), (&[6], &[3])]);
    assert_eq!(node.header.fixed_key_length.unwrap().get(), 1);
    assert!(node.header.fixed_value_length.is_none());
    let after = node.replace(0, &[5, 5, 5]);
    assert_eq!(pairs(&after), owned(&[(&[2], &[5, 5, 5]), (&[4], &[2, 2]), (&[6], &[3])]));
}

#[test]
fn activity_is_sketched_when_a_node_is_laid_out_anew() {
    // all of one length: no offsets, so an insertion lays the node out anew
    let mut node = leaf(&[(&[10], &[1])]);
    node = node.insert(&[20], &[1]);
    assert_eq!(node.header.activity_sketch, 0b1000_0000);
    node = node.insert(&[5], &[1]);
    assert_eq!(node.header.activity_sketch, 0b1000_0001);
    node = node.insert(&[15], &[1]);
    // place two of three: bit five
    assert_eq!(node.header.activity_sketch, 0b1010_0001);
    assert_eq!(node.len(), 4);
    // a removal leaves no trace
    assert_eq!(node.remove_index(0).header.activity_sketch, 0b1010_0001);
}

#[test]
fn probation_runs_out_with_updates() {
    let mut node = leaf(&[(&[2], &[1]), (&[4, 4], &[2, 2]), (&[6], &[])]);
    node.header.probation_ops_remaining = 2;
    let once = node.insert(&[3], &[]);
    assert_eq!(once.header.probation_ops_remaining, 1);
    let twice = once.remove_index(0);
    assert_eq!(twice.header.probation_ops_remaining, 0);
    assert_eq!(twice.insert(&[9], &[]).header.probation_ops_remaining, 0);
    // in place, nothing else changes
    assert_eq!(node.replace(0, &[7]).header.probation_ops_remaining, 2);
}

#[test]
fn links() {
    let node = leaf(&[(&[2], &[1]), (&[4], &[2])]);
    let after = node.apply(&Link::Put(vec![3], vec![9]));
    assert_eq!(pairs(&after), owned(&[(&[2], &[1]), (&[3], &[9]), (&[4], &[2])]));
    let after = node.apply(&Link::Replace(1, vec![7, 7]));
    assert_eq!(pairs(&after), owned(&[(&[2], &[1]), (&[4], &[7, 7])]));
    let after = node.apply(&Link::Del(0));
    assert_eq!(pairs(&after), owned(&[(&[4], &[2])]));
    let after = node.apply(&Link::ChildMergeCap);
    assert!(after.header.merging);
    assert_eq!(pairs(&after), pairs(&node));
    assert!(!after.should_split());
    assert!(!after.should_merge());
}

#[test]
fn merge_of_a_child() {
    let parent = index(&[(&[], 3), (&[5], 4), (&[9], 6)]);
    assert!(parent.can_merge_child(4));
    assert!(!parent.can_merge_child(5));
    let told = parent.apply(&Link::ParentMergeIntention(4));
    assert_eq!(told.header.merging_child.unwrap().get(), 4);
    assert!(!told.can_merge_child(6));
    assert_eq!(told.iter_index_pids(), vec![3, 4, 6]);
    let done = told.apply(&Link::ParentMergeConfirm);
    assert!(done.header.merging_child.is_none());
    assert_eq!(done.iter_index_pids(), vec![3, 6]);
    // the keys of the merged child go to its left sibling
    assert_eq!(parent.index_next_node(&[7]).1, 4);
    assert_eq!(done.index_next_node(&[7]).1, 3);
    assert_eq!(done.index_next_node(&[9, 1]).1, 6);
}

#[test]
fn split_of_a_child() {
    let parent = index(&[(&[], 3), (&[5], 4)]);
    let told = parent.parent_split(&[7], 9).unwrap();
    assert_eq!(told.iter_index_pids(), vec![3, 4, 9]);
    assert_eq!(told.index_next_node(&[4]), (0, 3));
    assert_eq!(told.index_next_node(&[6, 255]), (1, 4));
    assert_eq!(told.index_next_node(&[7]), (2, 9));
    assert_eq!(told.index_next_node(&[200]), (2, 9));
    // a child that is there already
    assert!(told.parent_split(&[7], 10).is_none());
    assert!(told.parent_split(&[5], 10).is_none());
}
