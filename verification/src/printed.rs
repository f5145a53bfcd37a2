//! Nodes as they are printed: a header, the bounds and the items, spelled out.

use vstd::prelude::*;
use crate::create::item_views;
use crate::header;
use crate::node;
use crate::nonzero::NonZeroU64;
use crate::search::slice_views;

verus! {

/// The debug output of a header.
#[derive(Debug)]
pub struct Header {
    pub next: Option<u64>,
    pub merging_child: Option<u64>,
    pub lo_len: u64,
    pub hi_len: u64,
    pub fixed_key_length: Option<u64>,
    pub fixed_value_length: Option<u64>,
    pub children: u16,
    pub prefix_len: u8,
    pub probation_ops_remaining: u8,
    pub offset_bytes: u8,
    pub rewrite_generations: u8,
    pub activity_sketch: u8,
    pub merging: bool,
    pub is_index: bool,
}

/// The debug output of a node. The items are keys as they are stored, with the values
/// of a leaf or the pages of the children of an index node.
#[derive(Debug)]
pub struct Node<'a, T> {
    pub header: Header,
    pub lo: &'a [u8],
    pub hi: Option<&'a [u8]>,
    pub items: Vec<(&'a [u8], T)>,
}

/// The number, if there is one.
pub open spec fn number_of(n: Option<NonZeroU64>) -> Option<u64> {
    match n {
        Some(n) => Some(n@),
        None => None,
    }
}

/// What is printed of a header.
pub open spec fn printed_header(h: header::Header) -> Header {
    Header {
        next: number_of(h.next),
        merging_child: number_of(h.merging_child),
        lo_len: h.lo_len,
        hi_len: h.hi_len,
        fixed_key_length: number_of(h.fixed_key_length),
        fixed_value_length: number_of(h.fixed_value_length),
        children: h.children,
        prefix_len: h.prefix_len,
        probation_ops_remaining: h.probation_ops_remaining,
        offset_bytes: h.offset_bytes,
        rewrite_generations: h.rewrite_generations,
        activity_sketch: h.activity_sketch,
        merging: h.merging,
        is_index: h.is_index,
    }
}

/// The bytes of an optional byte string.
pub open spec fn optional_view(s: Option<&[u8]>) -> Option<Seq<u8>> {
    match s {
        Some(s) => Some(s@),
        None => None,
    }
}

fn get_number(n: Option<NonZeroU64>) -> (r: Option<u64>)
    ensures
        r == number_of(n),
{
    match n {
        Some(n) => Some(n.get()),
        None => None,
    }
}

impl header::Header {
    /// The header for debug output.
    pub fn printed(&self) -> (r: Header)
        ensures
            r == printed_header(*self),
    {
        Header {
            next: get_number(self.next),
            merging_child: get_number(self.merging_child),
            lo_len: self.lo_len,
            hi_len: self.hi_len,
            fixed_key_length: get_number(self.fixed_key_length),
            fixed_value_length: get_number(self.fixed_value_length),
            children: self.children,
            prefix_len: self.prefix_len,
            probation_ops_remaining: self.probation_ops_remaining,
            offset_bytes: self.offset_bytes,
            rewrite_generations: self.rewrite_generations,
            activity_sketch: self.activity_sketch,
            merging: self.merging,
            is_index: self.is_index,
        }
    }
}

impl node::Node {
    /// A leaf for debug output.
    pub fn printed_leaf(&self) -> (r: Node<'_, &[u8]>)
        requires
            self@.wf(),
            !self@.header.is_index,
        ensures
            r.header == printed_header(self@.header),
            r.lo@ == self@.lo(),
            optional_view(r.hi) == self@.hi(),
            item_views(r.items@) == self@.items(),
    {
        Node { header: self.header.printed(), lo: self.lo(), hi: self.hi(), items: self.iter() }
    }

    /// An index node for debug output.
    pub fn printed_index(&self) -> (r: Node<'_, u64>)
        requires
            self@.wf(),
            self@.header.is_index,
            forall|i: int|
                #![trigger self@.items()[i]]
                0 <= i < self@.header.children ==> self@.items()[i].1.len() == 8,
        ensures
            r.header == printed_header(self@.header),
            r.lo@ == self@.lo(),
            optional_view(r.hi) == self@.hi(),
            r.items@.len() == self@.header.children,
            forall|i: int|
                #![trigger r.items@[i]]
                0 <= i < r.items@.len() ==> r.items@[i].0@ == self@.keys()[i] && r.items@[i].1
                    == self@.pid(i),
    {
        let keys = self.iter_keys();
        let pids = self.iter_index_pids();
        assert(slice_views(keys@).len() == keys@.len());
        let mut items: Vec<(&[u8], u64)> = Vec::with_capacity(keys.len());
        let mut i: usize = 0;
        while i < keys.len()
            invariant
                i <= keys@.len(),
                keys@.len() == pids@.len(),
                slice_views(keys@) == self@.keys(),
                forall|j: int| 0 <= j < pids@.len() ==> #[trigger] pids@[j] == self@.pid(j),
                items@.len() == i,
                forall|j: int|
                    #![trigger items@[j]]
                    0 <= j < i ==> items@[j].0@ == self@.keys()[j] && items@[j].1 == self@.pid(j),
            decreases keys@.len() - i,
        {
            assert(slice_views(keys@)[i as int] == keys@[i as int]@);
            items.push((keys[i], pids[i]));
            i = i + 1;
        }
        Node { header: self.header.printed(), lo: self.lo(), hi: self.hi(), items }
    }
}

} // verus!
