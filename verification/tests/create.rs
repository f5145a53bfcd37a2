use std::collections::BTreeMap;

use sled_node::bytes::{copy_prefix, part_mut, read_le, tail_mut, to_vec, u64_to_le, write_le};
use sled_node::create::bytes_per_offset;
use sled_node::node::Node;
use sled_node::nonzero::NonZeroU64;
use sled_node::order::{is_eq, is_le, is_lt, relate, shared_prefix, Relation};
use sled_node::prefix;
use sled_node::varint;

fn prop_indexable(lo: Vec<u8>, hi: Vec<u8>, children: Vec<(Vec<u8>, Vec<u8>)>) -> bool {
    let children_ref: Vec<(&[u8], &[u8])> =
        children.iter().map(|(k, v)| (k.as_ref(), v.as_ref())).collect();
    let ir = Node::new(&lo, Some(&hi), 0, false, None, &children_ref);

    assert_eq!(ir.header.children as usize, children_ref.len());

    for (idx, (k, v)) in children_ref.iter().enumerate() {
        assert_eq!(ir.index_key(idx), *k);
        let value = ir.index_value(idx);
        assert_eq!(
            value, *v,
            "expected value index {} to have value {:?} but instead it was {:?}",
            idx, *v, value,
        );
    }
    true
}

fn number(bytes: &[u8]) -> NonZeroU64 {
    NonZeroU64::new(read_le(bytes)).unwrap()
}

#[test]
fn simple() {
    let mut ir = Node::new(
        &[1],
        Some(&[7]),
        0,
        true,
        None,
        &[
            (&[1], &42_u64.to_le_bytes()),
            (&[6, 6, 6], &66_u64.to_le_bytes()),
        ],
    );
    ir.header.next = Some(NonZeroU64::new(5).unwrap());
    let _ = format!("this is for miri to run the format code: {:#?}", ir.printed_index());
    assert_eq!(ir.index_next_node(&[1]).1, 42);
    assert_eq!(ir.index_next_node(&[2]).1, 42);
    assert_eq!(ir.index_next_node(&[6]).1, 42);
    assert_eq!(ir.index_next_node(&[6, 6, 6, 6, 6]).1, 66);
}

#[test]
fn node_bug_00() {
    // postmortem: offsets were not being stored, and the slot buf was not
    // being considered correctly while writing or reading values in
    // shared slots.
    assert!(prop_indexable(
        vec![],
        vec![],
        vec![(vec![], vec![]), (vec![1], vec![1]),]
    ));
}

#[test]
fn node_bug_01() {
    // postmortem: hi and lo keys were not properly being accounted in the
    // inital allocation
    assert!(prop_indexable(vec![], vec![0], vec![],));
}

#[test]
fn indexable() {
    // every mix of fixed and varying lengths, for several numbers of items
    for count in 0..40_usize {
        for key_kind in 0..3_usize {
            for value_kind in 0..3_usize {
                let mut children: BTreeMap<Vec<u8>, Vec<u8>> = BTreeMap::new();
                for i in 0..count {
                    let mut key = vec![i as u8];
                    if key_kind == 1 {
                        key = vec![i as u8; i + 1];
                    } else if key_kind == 2 {
                        key = vec![i as u8; 300 - i];
                    }
                    let value = if value_kind == 0 {
                        vec![7, i as u8]
                    } else if value_kind == 1 {
                        vec![9; i]
                    } else {
                        vec![i as u8; 3000 - i * 70]
                    };
                    children.insert(key, value);
                }
                assert!(prop_indexable(
                    vec![1; key_kind],
                    vec![2; value_kind * 300],
                    children.into_iter().collect()
                ));
            }
        }
    }
}

#[test]
fn items_that_vary_share_slots() {
    let node = Node::new(
        &[],
        Some(&[]),
        0,
        false,
        None,
        &[(&[], &[]), (&[1], &[5])],
    );
    // two offsets, then each slot: key length, key, value length, value
    assert_eq!(node.buf, vec![0, 2, 0, 0, 1, 1, 1, 5]);
    assert_eq!(node.header.offset_bytes, 1);
    assert!(node.header.fixed_key_length.is_none());
    assert!(node.header.fixed_value_length.is_none());
    assert_eq!(node.rss(), 72);
    assert_eq!(node.len(), 2);
    assert!(!node.is_empty());
}

#[test]
fn items_of_one_length_need_no_offsets() {
    let node = Node::new(
        &[9],
        Some(&[8, 8]),
        0,
        false,
        NonZeroU64::new(3),
        &[(&[1, 2], &[3]), (&[4, 5], &[6])],
    );
    assert_eq!(node.buf, vec![9, 8, 8, 1, 2, 4, 5, 3, 6]);
    assert_eq!(node.header.offset_bytes, 0);
    assert_eq!(node.header.fixed_key_length.unwrap().get(), 2);
    assert_eq!(node.header.fixed_value_length.unwrap().get(), 1);
    assert_eq!(node.header.next.unwrap().get(), 3);
    assert_eq!(node.lo(), &[9]);
    assert_eq!(node.hi(), Some(&[8_u8, 8][..]));
    assert_eq!(node.data_buf(), &[1, 2, 4, 5, 3, 6]);
    assert_eq!(node.values_buf(), &[3, 6]);
}

#[test]
fn keys_of_one_length_stand_in_front_of_the_slots() {
    let node = Node::new(&[], None, 0, false, None, &[(&[1], &[]), (&[2], &[7, 7])]);
    assert_eq!(node.buf, vec![0, 1, 1, 2, 0, 2, 7, 7]);
    assert_eq!(node.hi(), None);
    assert_eq!(node.values_buf(), &[0, 2, 7, 7]);
    assert_eq!(node.value_buf_for_offset(1), &[2, 7, 7]);
}

#[test]
fn values_of_one_length_stand_behind_the_slots() {
    let node = Node::new(&[], None, 0, false, None, &[(&[], &[4]), (&[2, 3], &[5])]);
    assert_eq!(node.buf, vec![0, 1, 0, 2, 2, 3, 4, 5]);
    assert_eq!(node.values_buf(), &[4, 5]);
    assert_eq!(node.index_key(1), &[2, 3]);
    assert_eq!(node.index_value(0), &[4]);
}

#[test]
fn keys_of_length_zero_are_not_fixed() {
    let node = Node::new(&[], None, 0, false, None, &[(&[], &[1])]);
    assert!(node.header.fixed_key_length.is_none());
    assert_eq!(node.header.fixed_value_length.unwrap().get(), 1);
    assert_eq!(node.buf, vec![0, 0, 1]);
}

#[test]
fn offsets_grow_with_the_items() {
    let big = vec![1_u8; 300];
    let node = Node::new(&[], None, 0, false, None, &[(&[1], &big), (&[2, 2], &[])]);
    assert_eq!(node.header.offset_bytes, 2);
    // the second slot starts behind one byte of length, the key, two bytes of length
    // and the value
    assert_eq!(node.offset(1), 304);
    assert_eq!(&node.buf[..4], &[0, 0, 48, 1]);
    assert_eq!(node.index_value(0), &big[..]);
    assert_eq!(node.index_key(1), &[2, 2]);
    let huge = vec![1_u8; 70_000];
    let node = Node::new(&[], None, 0, false, None, &[(&[1], &huge), (&[2, 2], &[])]);
    assert_eq!(node.header.offset_bytes, 3);
    assert_eq!(node.index_value(0), &huge[..]);
}

#[test]
fn offset_widths() {
    assert_eq!(bytes_per_offset(0), 1);
    assert_eq!(bytes_per_offset(255), 1);
    assert_eq!(bytes_per_offset(256), 2);
    assert_eq!(bytes_per_offset(65_535), 2);
    assert_eq!(bytes_per_offset(65_536), 3);
    assert_eq!(bytes_per_offset(0xFF_FFFF), 3);
    assert_eq!(bytes_per_offset(0x100_0000), 4);
    assert_eq!(bytes_per_offset(0xFFFF_FFFF), 4);
    assert_eq!(bytes_per_offset(0x1_0000_0000), 5);
    assert_eq!(bytes_per_offset(0x100_0000_0000), 6);
    assert_eq!(bytes_per_offset(0xFFFF_FFFF_FFFF), 6);
}

#[test]
fn roots() {
    let root = Node::new_root(42);
    assert!(root.header.is_index);
    assert_eq!(root.len(), 1);
    assert_eq!(root.index_key(0), &[] as &[u8]);
    assert_eq!(root.index_pid(0), 42);
    assert_eq!(root.lo(), &[] as &[u8]);
    assert_eq!(root.hi(), None);
    assert_eq!(root.index_next_node(&[250, 1]), (0, 42));

    let root = Node::new_hoisted_root(3, &[5, 5], 4);
    assert_eq!(root.iter_index_pids(), vec![3, 4]);
    assert_eq!(root.index_next_node(&[]), (0, 3));
    assert_eq!(root.index_next_node(&[5, 4, 255]), (0, 3));
    assert_eq!(root.index_next_node(&[5, 5]), (1, 4));
    assert_eq!(root.index_next_node(&[6]), (1, 4));
}

#[test]
fn buffers_can_be_written() {
    let mut node = Node::new(
        &[9],
        Some(&[8, 8]),
        0,
        false,
        None,
        &[(&[1], &[5, 5]), (&[2, 2], &[6])],
    );
    assert_eq!(node.buf, vec![9, 8, 8, 0, 5, 1, 1, 2, 5, 5, 2, 2, 2, 1, 6]);
    node.lo_mut()[0] = 1;
    node.hi_mut().unwrap()[1] = 7;
    assert_eq!(node.lo(), &[1]);
    assert_eq!(node.hi(), Some(&[8_u8, 7][..]));
    node.key_buf_for_offset_mut(1)[1] = 4;
    assert_eq!(node.index_key(1), &[4, 2]);
    node.value_buf_for_offset_mut(0)[2] = 3;
    assert_eq!(node.index_value(0), &[5, 3]);
    node.values_buf_mut()[1] = 11;
    assert_eq!(node.index_key(0), &[11]);
    node.data_buf_mut()[2] = 0;
    node.set_offset(0, 1);
    assert_eq!(node.offset(0), 1);
    assert_eq!(node.header().children, 2);
    node.header_mut().rewrite_generations = 3;
    assert_eq!(node.header.rewrite_generations, 3);
    let mut open = Node::new(&[], None, 0, false, None, &[]);
    assert!(open.hi_mut().is_none());
    assert!(open.is_empty());
}

#[test]
fn offsets_read_back() {
    let mut node = Node::new(&[7], None, 0, false, None, &[(&[1], &[2, 2]), (&[3, 3], &[4])]);
    let before = node.buf.clone();
    node.set_offset(1, 201);
    assert_eq!(node.offset(1), 201);
    assert_eq!(node.offset(0), 0);
    assert_eq!(node.buf[..2], before[..2]);
    assert_eq!(node.buf[3..], before[3..]);
    node.set_offset(1, 5);
    assert_eq!(node.buf, before);
}

#[test]
fn printed_nodes() {
    let mut leaf = Node::new(&[1], Some(&[9]), 0, false, None, &[(&[2], &[3]), (&[4], &[])]);
    leaf.header.next = NonZeroU64::new(5);
    assert_eq!(
        format!("{:?}", leaf.printed_leaf()),
        "Node { header: Header { next: Some(5), merging_child: None, lo_len: 1, hi_len: 1, \
         fixed_key_length: Some(1), fixed_value_length: None, children: 2, prefix_len: 0, \
         probation_ops_remaining: 0, offset_bytes: 1, rewrite_generations: 0, \
         activity_sketch: 0, merging: false, is_index: false }, lo: [1], hi: Some([9]), \
         items: [([2], [3]), ([4], [])] }"
    );
    let root = Node::new_hoisted_root(3, &[5, 5], 4);
    assert_eq!(
        format!("{:?}", root.printed_index()),
        "Node { header: Header { next: None, merging_child: None, lo_len: 0, hi_len: 0, \
         fixed_key_length: None, fixed_value_length: Some(8), children: 2, prefix_len: 0, \
         probation_ops_remaining: 0, offset_bytes: 1, rewrite_generations: 0, \
         activity_sketch: 0, merging: false, is_index: true }, lo: [], hi: None, \
         items: [([], 3), ([5, 5], 4)] }"
    );
}

#[test]
fn keys_are_found() {
    let node = Node::new(
        &[],
        None,
        0,
        false,
        None,
        &[(&[1], &[10]), (&[1, 0], &[11]), (&[3], &[12]), (&[7, 7], &[13])],
    );
    assert_eq!(node.find(&[]), Err(0));
    assert_eq!(node.find(&[0, 9]), Err(0));
    assert_eq!(node.find(&[1]), Ok(0));
    assert_eq!(node.find(&[1, 0]), Ok(1));
    assert_eq!(node.find(&[2]), Err(2));
    assert_eq!(node.find(&[3]), Ok(2));
    assert_eq!(node.find(&[7]), Err(3));
    assert_eq!(node.find(&[7, 7]), Ok(3));
    assert_eq!(node.find(&[9]), Err(4));
    assert!(node.contains_key(&[3]));
    assert!(!node.contains_key(&[4]));
    assert!(node.is_sorted());
    assert_eq!(node.iter_keys(), vec![&[1_u8][..], &[1, 0], &[3], &[7, 7]]);
    assert_eq!(node.iter_values(), vec![&[10_u8][..], &[11], &[12], &[13]]);
    assert_eq!(node.iter()[2], (&[3_u8][..], &[12_u8][..]));
    assert_eq!(node.node_kv_pair(&[3]), (&[3_u8][..], Some(&[12_u8][..]), 2));
    assert_eq!(node.node_kv_pair(&[4]), (&[4_u8][..], None, 3));
    let empty = Node::new(&[], None, 0, false, None, &[]);
    assert_eq!(empty.find(&[1]), Err(0));
    assert!(empty.is_sorted());
}

#[test]
fn unsorted_keys_are_told_apart() {
    let unsorted = Node::new(&[], None, 0, false, None, &[(&[2], &[0]), (&[1], &[0])]);
    assert!(!unsorted.is_sorted());
    let twice = Node::new(&[], None, 0, false, None, &[(&[2], &[0]), (&[2], &[0])]);
    assert!(!twice.is_sorted());
}

#[test]
fn numbers_as_varints() {
    let cases: Vec<(u64, Vec<u8>)> = vec![
        (0, vec![0]),
        (240, vec![240]),
        (241, vec![241, 1]),
        (2287, vec![248, 255]),
        (2288, vec![249, 0, 0]),
        (67_823, vec![249, 255, 255]),
        (67_824, vec![250, 240, 8, 1]),
        (0xFF_FFFF, vec![250, 255, 255, 255]),
        (0x100_0000, vec![251, 0, 0, 0, 1]),
        (0x1_0000_0000, vec![252, 0, 0, 0, 0, 1]),
        (0x100_0000_0000, vec![253, 0, 0, 0, 0, 0, 1]),
        (0x1_0000_0000_0000, vec![254, 0, 0, 0, 0, 0, 0, 1]),
        (u64::MAX, vec![255, 255, 255, 255, 255, 255, 255, 255, 255]),
    ];
    for (value, bytes) in cases {
        let mut buf = vec![7_u8; 9];
        assert_eq!(varint::size(value) as usize, bytes.len());
        let n = varint::serialize_into(value, &mut buf) as usize;
        assert_eq!(n, bytes.len());
        assert_eq!(&buf[..n], &bytes[..]);
        assert!(buf[n..].iter().all(|b| *b == 7));
        assert_eq!(varint::deserialize(&buf), Some((value, n)));
        assert_eq!(varint::deserialize(&bytes[..n - 1]), None);
    }
}

#[test]
fn bytes_and_order() {
    assert_eq!(u64_to_le(0x0102), vec![2, 1, 0, 0, 0, 0, 0, 0]);
    assert_eq!(number(&[0, 1]).get(), 256);
    assert!(NonZeroU64::new(0).is_none());
    let mut buf = vec![9_u8; 6];
    write_le(0x0A0B0C, part_mut(&mut buf, 1, 3));
    assert_eq!(buf, vec![9, 12, 11, 10, 9, 9]);
    copy_prefix(tail_mut(&mut buf, 4), &[1]);
    assert_eq!(buf, vec![9, 12, 11, 10, 1, 9]);
    assert_eq!(to_vec(&buf[..2]), vec![9, 12]);
    assert_eq!(shared_prefix(&[1, 2, 3], &[1, 2, 4], 9), 2);
    assert_eq!(shared_prefix(&[1, 2, 3], &[1, 2, 4], 1), 1);
    assert_eq!(relate(&[1], &[1, 0]), Relation::Less);
    assert_eq!(relate(&[1, 0], &[1, 0]), Relation::Equal);
    assert_eq!(relate(&[2], &[1, 9]), Relation::Greater);
    assert!(is_lt(&[], &[0]));
    assert!(!is_lt(&[0], &[0]));
    assert!(is_le(&[0], &[0]));
    assert!(!is_le(&[1], &[0, 7]));
    assert!(is_eq(&[4], &[4]));
    assert!(!is_eq(&[4], &[4, 4]));
}

#[test]
fn prefixes() {
    assert_eq!(prefix::empty(), &[] as &[u8]);
    assert_eq!(prefix::decode(&[1, 2], &[3]), vec![1, 2, 3]);
    assert_eq!(prefix::reencode(&[1, 2], &[3, 4], 0), vec![1, 2, 3, 4]);
    assert_eq!(prefix::reencode(&[1, 2], &[3, 4], 1), vec![2, 3, 4]);
    assert_eq!(prefix::reencode(&[1, 2], &[3, 4], 3), vec![4]);
    assert_eq!(prefix::reencode(&[1, 2], &[3, 4], 9), Vec::<u8>::new());
    let node = Node::new(&[1, 2, 3], Some(&[1, 2, 9]), 2, false, None, &[(&[4], &[1])]);
    assert_eq!(node.prefix(), &[1, 2]);
    assert_eq!(node.prefix_encode(&[1, 2, 7, 7]), &[7, 7]);
    assert_eq!(node.prefix_decode(&[7, 7]), vec![1, 2, 7, 7]);
    assert_eq!(
        node.prefix_decode(node.prefix_encode(&[1, 2, 4])),
        vec![1, 2, 4]
    );
    assert_eq!(node.node_kv_pair(&[1, 2, 4]), (&[4_u8][..], Some(&[1_u8][..]), 0));
}
