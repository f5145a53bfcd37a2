use sled_node::node::Node;
use sled_node::range::Bound;

fn node() -> Node {
    Node::new(
        &[1, 2],
        Some(&[1, 9]),
        1,
        false,
        None,
        &[(&[3], &[30]), (&[5], &[50, 50]), (&[7, 7], &[])],
    )
}

fn last() -> Node {
    Node::new(&[4], None, 0, false, None, &[(&[5], &[1]), (&[6], &[2])])
}

fn included(b: &[u8]) -> Bound<Vec<u8>> {
    Bound::Included(b.to_vec())
}

fn excluded(b: &[u8]) -> Bound<Vec<u8>> {
    Bound::Excluded(b.to_vec())
}

fn item(key: &[u8], value: &[u8]) -> Option<(Vec<u8>, Vec<u8>)> {
    Some((key.to_vec(), value.to_vec()))
}

#[test]
fn successors() {
    let n = node();
    assert_eq!(n.successor(&Bound::Unbounded), item(&[1, 3], &[30]));
    assert_eq!(n.successor(&included(&[])), item(&[1, 3], &[30]));
    assert_eq!(n.successor(&included(&[1, 3])), item(&[1, 3], &[30]));
    assert_eq!(n.successor(&excluded(&[1, 3])), item(&[1, 5], &[50, 50]));
    assert_eq!(n.successor(&included(&[1, 4])), item(&[1, 5], &[50, 50]));
    assert_eq!(n.successor(&excluded(&[1, 4])), item(&[1, 5], &[50, 50]));
    assert_eq!(n.successor(&excluded(&[1, 2])), item(&[1, 3], &[30]));
    assert_eq!(n.successor(&excluded(&[1, 7])), item(&[1, 7, 7], &[]));
    assert_eq!(n.successor(&included(&[1, 7, 7])), item(&[1, 7, 7], &[]));
    assert_eq!(n.successor(&excluded(&[1, 7, 7])), None);
    assert_eq!(n.successor(&included(&[1, 8])), None);
}

#[test]
fn predecessors() {
    let n = node();
    assert_eq!(n.predecessor(&included(&[1, 2])), None);
    assert_eq!(n.predecessor(&included(&[1, 3])), item(&[1, 3], &[30]));
    assert_eq!(n.predecessor(&excluded(&[1, 3])), None);
    assert_eq!(n.predecessor(&included(&[1, 4])), item(&[1, 3], &[30]));
    assert_eq!(n.predecessor(&excluded(&[1, 5])), item(&[1, 3], &[30]));
    assert_eq!(n.predecessor(&included(&[1, 8])), item(&[1, 7, 7], &[]));
    assert_eq!(n.predecessor(&excluded(&[1, 9])), item(&[1, 7, 7], &[]));
    assert_eq!(n.predecessor(&excluded(&[1, 7, 7])), item(&[1, 5], &[50, 50]));
    assert_eq!(last().predecessor(&Bound::Unbounded), item(&[6], &[2]));
    let empty = Node::new(&[], None, 0, false, None, &[]);
    assert_eq!(empty.predecessor(&Bound::Unbounded), None);
    assert_eq!(empty.successor(&Bound::Unbounded), None);
}

#[test]
fn empty_nodes_need_no_prefix() {
    // the prefix is longer than the low key, but no key is asked for it
    let empty = Node::new(&[1], Some(&[9, 9]), 3, false, None, &[]);
    assert_eq!(empty.successor(&included(&[2, 2, 2])), None);
    assert_eq!(empty.successor(&excluded(&[2, 2, 2, 2])), None);
    assert_eq!(empty.predecessor(&included(&[2, 2, 2])), None);
    assert_eq!(empty.predecessor(&excluded(&[9, 9, 9])), None);
}

#[test]
fn walking_forth_and_back() {
    let n = node();
    let mut forth = vec![];
    let mut bound = Bound::Unbounded;
    while let Some((k, v)) = n.successor(&bound) {
        forth.push((k.clone(), v));
        bound = Bound::Excluded(k);
    }
    let mut back = vec![];
    let mut bound = excluded(&[1, 9]);
    while let Some((k, v)) = n.predecessor(&bound) {
        back.push((k.clone(), v));
        bound = Bound::Excluded(k);
    }
    back.reverse();
    assert_eq!(forth.len(), 3);
    assert_eq!(forth, back);
}

#[test]
fn upper_bounds() {
    let n = node();
    assert!(n.contains_upper_bound(&included(&[1, 8, 255])));
    assert!(!n.contains_upper_bound(&included(&[1, 9])));
    assert!(n.contains_upper_bound(&excluded(&[1, 9])));
    assert!(!n.contains_upper_bound(&excluded(&[1, 9, 0])));
    assert!(!n.contains_upper_bound(&Bound::Unbounded));
    assert!(last().contains_upper_bound(&Bound::Unbounded));
    assert!(last().contains_upper_bound(&included(&[255])));
}

#[test]
fn lower_bounds() {
    let n = node();
    assert!(n.contains_lower_bound(&included(&[1, 2]), true));
    assert!(!n.contains_lower_bound(&included(&[1, 1]), true));
    assert!(n.contains_lower_bound(&excluded(&[1, 2]), true));
    assert!(!n.contains_lower_bound(&excluded(&[1, 2]), false));
    assert!(n.contains_lower_bound(&excluded(&[1, 2, 0]), false));
    assert!(!n.contains_lower_bound(&excluded(&[1, 1]), true));
    assert!(!n.contains_lower_bound(&Bound::Unbounded, true));
    assert!(!n.contains_lower_bound(&Bound::Unbounded, false));
    assert!(last().contains_lower_bound(&Bound::Unbounded, false));
    let first = Node::new(&[], Some(&[4]), 0, false, None, &[]);
    assert!(first.contains_lower_bound(&Bound::Unbounded, true));
    assert!(!first.contains_lower_bound(&Bound::Unbounded, false));
    assert!(first.contains_lower_bound(&excluded(&[]), false));
}
