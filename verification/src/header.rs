//! The fixed-size header in front of a node's bytes.

use vstd::prelude::*;
use crate::layout::Shape;
use crate::nonzero::{length_of, NonZeroU64};

verus! {

/// The number of bytes that a header takes.
pub const HEADER_BYTES: usize = 64;

/// What a node says of itself in front of its keys and values.
#[derive(Clone, Copy)]
pub struct Header {
    /// The page of the right sibling.
    pub next: Option<NonZeroU64>,
    /// The page of the child that is being merged into its left sibling.
    pub merging_child: Option<NonZeroU64>,
    /// The length of the low key.
    pub lo_len: u64,
    /// The length of the high key; zero where the node has none.
    pub hi_len: u64,
    /// The length of every key, where all are stored with the same length.
    pub fixed_key_length: Option<NonZeroU64>,
    /// The length of every value, where all are stored with the same length.
    pub fixed_value_length: Option<NonZeroU64>,
    /// The number of items.
    pub children: u16,
    /// How many leading bytes of the low key the stored keys leave out.
    pub prefix_len: u8,
    /// How many more updates a fresh right half sees before it may be merged.
    pub probation_ops_remaining: u8,
    /// The number of bytes that one entry of the offset table takes.
    pub offset_bytes: u8,
    /// How often the node was rewritten.
    pub rewrite_generations: u8,
    /// One bit for each eighth of the node that saw an insertion.
    pub activity_sketch: u8,
    /// Whether the node is being merged into its left sibling.
    pub merging: bool,
    /// Whether the values are the pages of children.
    pub is_index: bool,
}

impl Header {
    /// How the items are laid out.
    pub open spec fn shape(self) -> Shape {
        Shape {
            key_len: length_of(self.fixed_key_length),
            value_len: length_of(self.fixed_value_length),
            offset_bytes: self.offset_bytes as nat,
        }
    }

    /// Where the items start behind the header.
    pub open spec fn data_start(self) -> int {
        self.lo_len + self.hi_len
    }
}

} // verus!
