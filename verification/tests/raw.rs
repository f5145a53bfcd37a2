use sled_node::header::HEADER_BYTES;
use sled_node::node::Node;
use sled_node::nonzero::NonZeroU64;

#[test]
fn raw_bytes() {
    let mut node = Node::new(
        &[9],
        Some(&[8, 8]),
        1,
        true,
        NonZeroU64::new(0x0102),
        &[(&[1], &[1, 0, 0, 0, 0, 0, 0, 0])],
    );
    node.header.merging_child = NonZeroU64::new(7);
    node.header.probation_ops_remaining = 5;
    node.header.rewrite_generations = 6;
    node.header.activity_sketch = 0xF0;
    let raw = node.to_raw();
    assert_eq!(raw.len() as u64, node.rss());
    let expected: Vec<u8> = vec![
        2, 1, 0, 0, 0, 0, 0, 0, // next
        7, 0, 0, 0, 0, 0, 0, 0, // merging child
        1, 0, 0, 0, 0, 0, 0, 0, // length of the low key
        2, 0, 0, 0, 0, 0, 0, 0, // length of the high key
        1, 0, 0, 0, 0, 0, 0, 0, // length of every key
        8, 0, 0, 0, 0, 0, 0, 0, // length of every value
        1, 0, // children
        1, 5, 0, 6, 0xF0, 0, 1, // the rest, and padding
        0, 0, 0, 0, 0, 0, 0, // padding
        9, 8, 8, 1, 1, 0, 0, 0, 0, 0, 0, 0,
    ];
    assert_eq!(raw, expected);
}

#[test]
fn raw_bytes_read_back() {
    let items: Vec<(Vec<u8>, Vec<u8>)> =
        (0..300_u32).map(|i| (i.to_be_bytes().to_vec(), vec![3; i as usize % 7])).collect();
    let refs: Vec<(&[u8], &[u8])> = items.iter().map(|(k, v)| (&k[..], &v[..])).collect();
    let mut node = Node::new(&[0], Some(&[1]), 1, false, None, &refs);
    node.header.merging = true;
    node.header.children = 300;
    let raw = node.to_raw();
    let back = Node::from_raw(&raw);
    assert_eq!(back.buf, node.buf);
    assert_eq!(back.to_raw(), raw);
    assert!(back.header.merging);
    assert!(!back.header.is_index);
    assert_eq!(back.len(), 300);
    assert!(back.header.next.is_none());
    assert!(back.header.fixed_value_length.is_none());
    for (i, (k, v)) in items.iter().enumerate() {
        assert_eq!(back.index_key(i), &k[..]);
        assert_eq!(back.index_value(i), &v[..]);
    }
}

#[test]
fn bytes_read_and_written_are_the_same() {
    let mut raw = Node::new_root(12).to_raw();
    for i in 57..64 {
        assert_eq!(raw[i], 0);
        raw[i] = 100 + i as u8;
    }
    let node = Node::from_raw(&raw);
    assert_eq!(node.padding, [157, 158, 159, 160, 161, 162, 163]);
    assert_eq!(node.to_raw(), raw);
    assert_eq!(node.clone().to_raw(), raw);
    // a value replaced in place leaves all other bytes
    let after = node.replace(0, &13_u64.to_le_bytes());
    assert_eq!(after.padding, node.padding);
    assert_eq!(after.replace(0, &12_u64.to_le_bytes()).to_raw(), raw);
    // a node that is laid out anew has no padding to keep
    assert_eq!(node.insert(&[1], &[0; 8]).padding, [0; 7]);
    let mut short = raw[..HEADER_BYTES].to_vec();
    short[48] = 0;
    assert_eq!(Node::from_raw(&short).to_raw(), short);
}

#[test]
fn clones_are_equal() {
    let node = Node::new(&[1], None, 0, false, NonZeroU64::new(2), &[(&[3], &[4])]);
    assert_eq!(node.clone().to_raw(), node.to_raw());
}
