use sled_node::node::Node;
use sled_node::nonzero::NonZeroU64;

fn entries(node: &Node) -> Vec<(Vec<u8>, Vec<u8>)> {
    node.iter().iter().map(|(k, v)| (node.prefix_decode(k), v.to_vec())).collect()
}

fn sample(count: u8) -> Node {
    let keys: Vec<Vec<u8>> = (0..count).map(|i| vec![1, 2, 3, i]).collect();
    let values: Vec<Vec<u8>> = (0..count).map(|i| vec![7; i as usize]).collect();
    let items: Vec<(&[u8], &[u8])> =
        keys.iter().zip(values.iter()).map(|(k, v)| (&k[..], &v[..])).collect();
    Node::new(&[1, 2, 3], Some(&[1, 2, 9]), 0, false, NonZeroU64::new(5), &items)
}

#[test]
fn split_points() {
    let mut node = sample(8);
    assert_eq!(node.weighted_split_point(), 4);
    node.header.activity_sketch = 0b0000_0001;
    assert_eq!(node.weighted_split_point(), 1);
    node.header.activity_sketch = 0b1000_0000;
    assert_eq!(node.weighted_split_point(), 7);
    node.header.activity_sketch = 0b1000_0001;
    // the places one and eight average to four
    assert_eq!(node.weighted_split_point(), 4);
    node.header.activity_sketch = 0b1111_1111;
    assert_eq!(node.weighted_split_point(), 4);
    node.header.activity_sketch = 0b0000_0110;
    assert_eq!(node.weighted_split_point(), 2);
    let mut two = sample(2);
    for sketch in 0..=255 {
        two.header.activity_sketch = sketch;
        assert_eq!(two.weighted_split_point(), 1);
    }
    let empty = sample(0);
    assert_eq!(empty.weighted_split_point(), 0);
}

#[test]
fn split_in_two() {
    let mut node = sample(6);
    node.header.rewrite_generations = 4;
    let (left, right) = node.split();
    assert_eq!(left.lo(), &[1, 2, 3]);
    assert_eq!(left.hi(), Some(&[1_u8, 2, 3, 3][..]));
    assert_eq!(right.lo(), &[1, 2, 3, 3]);
    assert_eq!(right.hi(), Some(&[1_u8, 2, 9][..]));
    assert_eq!(left.header.prefix_len, 3);
    assert_eq!(right.header.prefix_len, 2);
    assert_eq!(left.iter_keys(), vec![&[0_u8][..], &[1], &[2]]);
    assert_eq!(right.iter_keys(), vec![&[3_u8, 3][..], &[3, 4], &[3, 5]]);
    assert_eq!(left.header.rewrite_generations, 4);
    assert_eq!(right.header.rewrite_generations, 4);
    assert_eq!(left.header.probation_ops_remaining, 0);
    assert_eq!(right.header.probation_ops_remaining, 3);
    assert_eq!(right.header.next.unwrap().get(), 5);
    let mut both = entries(&left);
    both.extend(entries(&right));
    assert_eq!(both, entries(&node));
    // too small to stay alone, but on probation
    assert!(left.should_merge());
    assert!(!right.should_merge());
}

#[test]
fn keys_are_found_in_one_half() {
    let node = sample(7);
    let (left, right) = node.split();
    for i in 0..9 {
        let key = vec![1, 2, 3, i];
        let whole = node.node_kv_pair(&key).1;
        let half = if i < 3 { &left } else { &right };
        assert_eq!(half.node_kv_pair(&key).1, whole);
    }
}

#[test]
fn merge_gives_back_what_was_split() {
    for count in 2..40 {
        for sketch in [0, 1, 128, 24] {
            let mut node = sample(count);
            node.header.activity_sketch = sketch;
            let (left, right) = node.split();
            assert!(!left.is_empty());
            assert!(!right.is_empty());
            let merged = left.receive_merge(&right);
            assert_eq!(entries(&merged), entries(&node));
            assert_eq!(merged.lo(), node.lo());
            assert_eq!(merged.hi(), node.hi());
            assert_eq!(merged.header.next.unwrap().get(), 5);
            assert_eq!(merged.header.prefix_len, 2);
            assert!(merged.is_sorted());
        }
    }
}

#[test]
fn prefixes_stop_at_their_largest_length() {
    let keys: Vec<Vec<u8>> = (0..4_u8)
        .map(|i| {
            let mut k = vec![6; 300];
            k.push(i);
            k
        })
        .collect();
    let items: Vec<(&[u8], &[u8])> = keys.iter().map(|k| (&k[..], &[][..])).collect();
    let lo = vec![6; 300];
    let node = Node::new(&lo, None, 0, false, None, &items);
    let (left, right) = node.split();
    assert_eq!(left.header.prefix_len, 255);
    assert_eq!(right.header.prefix_len, 0);
    let merged = left.receive_merge(&right);
    assert_eq!(entries(&merged), entries(&node));
    // a right half that leaves out more than the left one
    let left = Node::new(&[], Some(&[6]), 0, false, None, &[(&[5], &[1])]);
    let right = Node::new(&[6], Some(&[6, 6]), 1, false, None, &[(&[3], &[2])]);
    let merged = left.receive_merge(&right);
    assert_eq!(merged.header.prefix_len, 0);
    assert_eq!(merged.iter_keys(), vec![&[5_u8][..], &[6, 3]]);
    assert_eq!(merged.iter_values(), vec![&[1_u8][..], &[2]]);
    assert_eq!(merged.hi(), Some(&[6_u8, 6][..]));
}

#[test]
fn open_ended_nodes_with_a_prefix() {
    let node = Node::new(
        &[3, 4],
        None,
        1,
        false,
        None,
        &[(&[5], &[1]), (&[6], &[2, 2]), (&[7, 7], &[]), (&[8], &[4])],
    );
    let (left, right) = node.split();
    assert_eq!(left.header.prefix_len, 1);
    assert_eq!(right.header.prefix_len, 1);
    assert_eq!(right.lo(), &[3, 7, 7]);
    let mut both = entries(&left);
    both.extend(entries(&right));
    assert_eq!(both, entries(&node));
    let merged = left.receive_merge(&right);
    assert_eq!(entries(&merged), entries(&node));
    assert_eq!(merged.hi(), None);
}

#[test]
fn halves_leave_out_what_their_bounds_share() {
    for count in 2..20 {
        let (left, right) = sample(count).split();
        for half in [&left, &right] {
            let shared =
                half.lo().iter().zip(half.hi().unwrap()).take_while(|(a, b)| a == b).count();
            assert_eq!(half.header.prefix_len as usize, shared.min(255));
        }
    }
}

#[test]
fn empty_nodes_are_merged_without_their_prefix() {
    let left = Node::new(&[1], Some(&[5]), 2, false, None, &[]);
    let right = Node::new(&[5], None, 0, false, None, &[(&[6], &[7])]);
    let merged = left.receive_merge(&right);
    assert_eq!(merged.header.prefix_len, 0);
    assert_eq!(merged.lo(), &[1]);
    assert_eq!(entries(&merged), vec![(vec![6], vec![7])]);
}

#[test]
fn merged_generations_are_the_fewer() {
    let mut left = Node::new(&[], Some(&[6]), 0, false, None, &[(&[5], &[1])]);
    let mut right = Node::new(&[6], None, 0, false, NonZeroU64::new(8), &[(&[7], &[2])]);
    left.header.rewrite_generations = 3;
    right.header.rewrite_generations = 2;
    let merged = left.receive_merge(&right);
    assert_eq!(merged.header.rewrite_generations, 2);
    assert_eq!(merged.header.next.unwrap().get(), 8);
    right.header.rewrite_generations = 9;
    assert_eq!(left.receive_merge(&right).header.rewrite_generations, 3);
}

#[test]
fn split_of_an_index_node_leaves_no_gap() {
    let bytes: Vec<[u8; 8]> = (0..6_u64).map(|i| (i + 20).to_le_bytes()).collect();
    let keys: Vec<Vec<u8>> = vec![vec![], vec![2], vec![4], vec![6], vec![8], vec![10]];
    let items: Vec<(&[u8], &[u8])> =
        keys.iter().zip(bytes.iter()).map(|(k, b)| (&k[..], &b[..])).collect();
    let node = Node::new(&[], None, 0, true, None, &items);
    let (left, right) = node.split();
    assert_eq!(left.prefix_decode(left.index_key(0)), left.lo());
    assert_eq!(right.prefix_decode(right.index_key(0)), right.lo());
    for key in 0..12_u8 {
        let half = if key < 6 { &left } else { &right };
        assert_eq!(half.index_next_node(&[key]).1, node.index_next_node(&[key]).1);
    }
    // the parent sends each key to the half that holds it
    let parent = Node::new_root(90).parent_split(right.lo(), 91).unwrap();
    assert_eq!(parent.index_next_node(&[5, 255]).1, 90);
    assert_eq!(parent.index_next_node(&[6]).1, 91);
    let joined = left.receive_merge(&right);
    for key in 0..12_u8 {
        assert_eq!(joined.index_next_node(&[key]).1, node.index_next_node(&[key]).1);
    }
}

#[test]
fn thresholds() {
    // the header takes 64 bytes; two keys, two offsets of two bytes and two lengths
    let leaf = |len: usize| {
        let value = vec![1; len];
        Node::new(&[], None, 0, false, None, &[(&[1], &value[..]), (&[2, 2], &[])])
    };
    let node = leaf(2048 - 76);
    assert_eq!(node.rss(), 2048);
    assert!(!node.should_split());
    let node = leaf(2049 - 76);
    assert_eq!(node.rss(), 2049);
    assert!(node.should_split());
    assert!(!node.should_merge());
    let mut busy = node.clone();
    busy.header.merging = true;
    assert!(!busy.should_split());
    let mut busy = node.clone();
    busy.header.merging_child = NonZeroU64::new(1);
    assert!(!busy.should_split());
    let value = vec![1; 4000];
    let single = Node::new(&[], None, 0, false, None, &[(&[1], &value[..])]);
    assert!(!single.should_split());

    let node = leaf(512 - 76);
    assert_eq!(node.rss(), 512);
    assert!(!node.should_merge());
    let mut node = leaf(511 - 76);
    assert_eq!(node.rss(), 511);
    assert!(node.should_merge());
    node.header.probation_ops_remaining = 1;
    assert!(!node.should_merge());
    node.header.probation_ops_remaining = 0;
    node.header.merging = true;
    assert!(!node.should_merge());

    let index = |len: usize| {
        let at = vec![1; len];
        Node::new(&[], None, 0, true, None, &[(&[], &[0; 8]), (&at[..], &[0; 8])])
    };
    let node = index(100_000);
    assert!(!node.should_split());
    assert!(!node.should_merge());
    assert!(index(131_100).should_split());
    assert!(index(32_000).should_merge());
    assert!(!index(33_000).should_merge());
}

#[test]
fn eager_thresholds() {
    assert!(!sample(4).should_split_eagerly());
    assert!(sample(5).should_split_eagerly());
    assert!(sample(1).should_merge_eagerly());
    assert!(!sample(2).should_merge_eagerly());
    let mut node = sample(1);
    node.header.probation_ops_remaining = 1;
    assert!(!node.should_merge_eagerly());
    let mut node = sample(5);
    node.header.merging = true;
    assert!(!node.should_split_eagerly());
}
