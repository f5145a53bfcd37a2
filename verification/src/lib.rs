//! Sorted string table nodes with a packed byte layout.
//!
//! A node is the unit that a B+ tree reads, splits and merges: a header, the bounds of
//! its keys, and its items, which are the pages of children where it is an index node.
//! A node is never changed in place: each update gives a new one.

pub mod buffers;
pub mod bytes;
pub mod contents;
pub mod create;
pub mod header;
pub mod laws;
pub mod layout;
pub mod link;
pub mod node;
pub mod nonzero;
pub mod order;
pub mod policy;
pub mod prefix;
pub mod printed;
pub mod range;
pub mod raw;
pub mod search;
pub mod split;
pub mod stitch;
pub mod update;
pub mod varint;
pub mod writing;
