//! Access to the parts of a node's bytes.

use vstd::prelude::*;
use crate::bytes::{le_bytes, lemma_le_bytes_len, part_mut, read_le, splice, tail_mut, write_le};
use crate::header::{Header, HEADER_BYTES};
use crate::node::{allocatable, lemma_holds_key, lemma_holds_value, Node, NodeView};
use crate::varint;

verus! {

impl Clone for Node {
    fn clone(&self) -> (r: Self)
        ensures
            r@ == self@,
    {
        let buf = self.buf.clone();
        assert(buf@ =~= self.buf@);
        Node { header: self.header, padding: self.padding, buf }
    }
}

impl Node {
    /// The header.
    pub fn header(&self) -> (r: &Header)
        ensures
            *r == self@.header,
    {
        &self.header
    }

    /// The header, to be changed.
    pub fn header_mut(&mut self) -> (r: &mut Header)
        ensures
            *r == old(self)@.header,
            final(self)@ == (NodeView { header: *final(r), ..old(self)@ }),
    {
        &mut self.header
    }

    /// The number of items.
    pub fn len(&self) -> (r: usize)
        ensures
            r == self@.header.children,
    {
        self.header.children as usize
    }

    /// Whether there are no items.
    pub fn is_empty(&self) -> (r: bool)
        ensures
            r == (self@.header.children == 0),
    {
        self.len() == 0
    }

    /// The number of bytes that the node takes, its header included.
    pub fn rss(&self) -> (r: u64)
        requires
            allocatable(self@.byte_len()),
        ensures
            r == self@.byte_len(),
            r == 64 + self@.buf.len(),
    {
        (HEADER_BYTES + self.buf.len()) as u64
    }

    /// The inclusive lower bound of the keys.
    pub fn lo(&self) -> (r: &[u8])
        requires
            self@.bounded(),
        ensures
            r@ == self@.lo(),
    {
        assert(self.buf.len() == self@.buf.len());
        let end = self.header.lo_len as usize;
        let r = &self.buf.as_slice()[0..end];
        assert(r@ =~= self@.lo());
        r
    }

    /// The bytes of the lower bound, to be filled in.
    pub fn lo_mut(&mut self) -> (r: &mut [u8])
        requires
            old(self)@.bounded(),
        ensures
            r@ == old(self)@.lo(),
            final(self)@.header == old(self)@.header,
            final(self)@.padding == old(self)@.padding,
            final(self)@.buf == final(r)@ + old(self)@.buf.skip(old(self)@.header.lo_len as int),
    {
        assert(self.buf.len() == self@.buf.len());
        let end = self.header.lo_len as usize;
        let (r, _) = self.buf.as_mut_slice().split_at_mut(end);
        r
    }

    /// The exclusive upper bound of the keys, if there is one.
    pub fn hi(&self) -> (r: Option<&[u8]>)
        requires
            self@.bounded(),
        ensures
            match r {
                Some(h) => self@.hi() == Some(h@),
                None => self@.hi() is None,
            },
    {
        assert(self.buf.len() == self@.buf.len());
        let start = self.header.lo_len as usize;
        let end = start + self.header.hi_len as usize;
        if start == end {
            None
        } else {
            Some(&self.buf.as_slice()[start..end])
        }
    }

    /// The bytes of the upper bound, to be filled in.
    pub fn hi_mut(&mut self) -> (r: Option<&mut [u8]>)
        requires
            old(self)@.bounded(),
        ensures
            match r {
                Some(h) => {
                    &&& old(self)@.hi() == Some(h@)
                    &&& final(self)@.header == old(self)@.header
                    &&& final(self)@.padding == old(self)@.padding
                    &&& final(self)@.buf == old(self)@.lo() + final(h)@ + old(self)@.buf.skip(
                        old(self)@.header.data_start(),
                    )
                },
                None => old(self)@.hi() is None && final(self)@ == old(self)@,
            },
    {
        assert(self.buf.len() == self@.buf.len());
        let start = self.header.lo_len as usize;
        let len = self.header.hi_len as usize;
        if len == 0 {
            None
        } else {
            Some(part_mut(self.buf.as_mut_slice(), start, len))
        }
    }

    /// Where the bytes of the items start behind the header.
    pub(crate) fn data_start(&self) -> (r: usize)
        requires
            self@.bounded(),
        ensures
            r == self@.header.data_start(),
            self@.buf.len() <= usize::MAX,
    {
        assert(self.buf.len() == self@.buf.len());
        self.header.lo_len as usize + self.header.hi_len as usize
    }

    /// The bytes of the items.
    pub fn data_buf(&self) -> (r: &[u8])
        requires
            self@.bounded(),
        ensures
            r@ == self@.buf.skip(self@.header.data_start()),
    {
        let start = self.data_start();
        let r = &self.buf.as_slice()[start..self.buf.len()];
        assert(r@ =~= self@.buf.skip(start as int));
        r
    }

    /// The bytes of the items, to be changed.
    pub fn data_buf_mut(&mut self) -> (r: &mut [u8])
        requires
            old(self)@.bounded(),
        ensures
            r@ == old(self)@.buf.skip(old(self)@.header.data_start()),
            final(self)@.header == old(self)@.header,
            final(self)@.padding == old(self)@.padding,
            final(self)@.buf == old(self)@.buf.take(old(self)@.header.data_start()) + final(r)@,
    {
        let start = self.data_start();
        tail_mut(self.buf.as_mut_slice(), start)
    }

    /// Entry `index` of the offset table.
    pub fn offset(&self, index: usize) -> (r: usize)
        requires
            self@.bounded(),
            self@.offset_readable(index as int),
        ensures
            r == self@.slot_offset(index as int),
    {
        let width = self.header.offset_bytes as usize;
        assert(0 <= index * width) by (nonlinear_arith);
        let start = self.data_start() + index * width;
        read_le(&self.buf.as_slice()[start..start + width]) as usize
    }

    /// Sets entry `index` of the offset table.
    pub fn set_offset(&mut self, index: usize, offset: usize)
        requires
            old(self)@.bounded(),
            old(self)@.header.offset_bytes <= 8,
            old(self)@.offset_pos(index as int) + old(self)@.header.offset_bytes <= old(
                self,
            )@.buf.len(),
        ensures
            final(self)@.header == old(self)@.header,
            final(self)@.padding == old(self)@.padding,
            final(self)@.buf == splice(
                old(self)@.buf,
                old(self)@.offset_pos(index as int),
                le_bytes(offset as nat, old(self)@.header.offset_bytes as nat),
            ),
    {
        let width = self.header.offset_bytes as usize;
        let ghost d = self@.header.data_start();
        assert(self.buf.len() == self@.buf.len());
        proof {
            assert(0 <= index * width) by (nonlinear_arith);
            lemma_le_bytes_len(offset as nat, width as nat);
        }
        let start = index * width;
        let data = self.data_buf_mut();
        write_le(offset as u64, part_mut(data, start, width));
        assert(self@.buf =~= splice(
            old(self)@.buf,
            d + start,
            le_bytes(offset as nat, width as nat),
        ));
    }

    /// The open-ended buffer where key `index` is placed.
    pub fn key_buf_for_offset_mut(&mut self, index: usize) -> (r: &mut [u8])
        requires
            old(self)@.bounded(),
            old(self)@.header.fixed_key_length is None ==> old(self)@.offset_readable(index as int),
            old(self)@.key_pos(index as int) <= old(self)@.buf.len(),
        ensures
            r@ == old(self)@.buf.skip(old(self)@.key_pos(index as int)),
            final(self)@.header == old(self)@.header,
            final(self)@.padding == old(self)@.padding,
            final(self)@.buf == old(self)@.buf.take(old(self)@.key_pos(index as int)) + final(r)@,
    {
        let ghost p = self@.key_pos(index as int);
        let ghost d = self@.header.data_start();
        assert(self.buf.len() == self@.buf.len());
        proof {
            lemma_table_small(self.header.children, self.header.offset_bytes);
        }
        let offset_sz = self.header.children as usize * self.header.offset_bytes as usize;
        let within: usize = match self.header.fixed_key_length {
            Some(k) => {
                assert(self.buf.len() == self@.buf.len());
                times(index, k.get())
            },
            None => self.offset(index),
        };
        proof {
            assert(old(self)@.buf.skip(d).skip(p - d) =~= old(self)@.buf.skip(p));
            assert(old(self)@.buf.take(d) + old(self)@.buf.skip(d).take(p - d)
                =~= old(self)@.buf.take(p));
        }
        let r = tail_mut(self.data_buf_mut(), offset_sz + within);
        proof {
            assert(old(self)@.buf.take(d) + (old(self)@.buf.skip(d).take(p - d) + final(r)@)
                =~= old(self)@.buf.take(d) + old(self)@.buf.skip(d).take(p - d) + final(r)@);
        }
        r
    }

    /// The open-ended buffer where the values start.
    pub fn values_buf(&self) -> (r: &[u8])
        requires
            self@.bounded(),
            self@.header.data_start() <= self@.values_pos() <= self@.buf.len(),
        ensures
            r@ == self@.buf.skip(self@.values_pos()),
    {
        let start = self.values_start();
        let data = self.data_buf();
        let r = &data[start..data.len()];
        assert(r@ =~= self@.buf.skip(self@.values_pos()));
        r
    }

    /// The open-ended buffer where the values start, to be changed.
    pub fn values_buf_mut(&mut self) -> (r: &mut [u8])
        requires
            old(self)@.bounded(),
            old(self)@.header.data_start() <= old(self)@.values_pos() <= old(self)@.buf.len(),
        ensures
            r@ == old(self)@.buf.skip(old(self)@.values_pos()),
            final(self)@.header == old(self)@.header,
            final(self)@.padding == old(self)@.padding,
            final(self)@.buf == old(self)@.buf.take(old(self)@.values_pos()) + final(r)@,
    {
        let ghost p = self@.values_pos();
        let ghost d = self@.header.data_start();
        let start = self.values_start();
        let r = tail_mut(self.data_buf_mut(), start);
        proof {
            assert(old(self)@.buf.skip(d).skip(p - d) =~= old(self)@.buf.skip(p));
            assert(old(self)@.buf.take(d) + (old(self)@.buf.skip(d).take(p - d) + final(r)@)
                =~= old(self)@.buf.take(p) + final(r)@);
        }
        r
    }

    /// Where the values start in the bytes of the items.
    fn values_start(&self) -> (r: usize)
        requires
            self@.bounded(),
            self@.header.data_start() <= self@.values_pos() <= self@.buf.len(),
        ensures
            self@.header.data_start() + r == self@.values_pos(),
    {
        let children = self.header.children as usize;
        proof {
            lemma_table_small(self.header.children, self.header.offset_bytes);
        }
        let offset_sz = children * self.header.offset_bytes as usize;
        match self.header.fixed_key_length {
            Some(k) => {
                assert(self.buf.len() == self@.buf.len());
                assert(k@ * children == children * k@) by (nonlinear_arith);
                offset_sz + times(children, k.get())
            },
            None => match self.header.fixed_value_length {
                Some(v) => {
                    assert(v@ * children == children * v@) by (nonlinear_arith);
                    let data_len = self.data_buf().len();
                    data_len - times(children, v.get())
                },
                None => offset_sz,
            },
        }
    }

    /// The open-ended buffer where value `index` stands.
    pub fn value_buf_for_offset(&self, index: usize) -> (r: &[u8])
        requires
            self@.value_findable(index as int),
        ensures
            r@ == self@.buf.skip(self@.value_pos(index as int)),
    {
        let start = self.value_start(index);
        let values = self.values_buf();
        let r = &values[start..values.len()];
        assert(r@ =~= self@.buf.skip(self@.value_pos(index as int)));
        r
    }

    /// The open-ended buffer where value `index` is placed.
    ///
    /// Where keys and values share slots the key has to be there already, since its
    /// length tells where the value starts.
    pub fn value_buf_for_offset_mut(&mut self, index: usize) -> (r: &mut [u8])
        requires
            old(self)@.value_findable(index as int),
        ensures
            r@ == old(self)@.buf.skip(old(self)@.value_pos(index as int)),
            final(self)@.header == old(self)@.header,
            final(self)@.padding == old(self)@.padding,
            final(self)@.buf == old(self)@.buf.take(old(self)@.value_pos(index as int)) + final(r)@,
    {
        let ghost p = self@.value_pos(index as int);
        let ghost d = self@.values_pos();
        let start = self.value_start(index);
        let r = tail_mut(self.values_buf_mut(), start);
        proof {
            assert(old(self)@.buf.skip(d).skip(p - d) =~= old(self)@.buf.skip(p));
            assert(old(self)@.buf.take(d) + (old(self)@.buf.skip(d).take(p - d) + final(r)@)
                =~= old(self)@.buf.take(p) + final(r)@);
        }
        r
    }

    /// Where value `index` stands behind the place where the values start.
    fn value_start(&self, index: usize) -> (r: usize)
        requires
            self@.value_findable(index as int),
        ensures
            self@.values_pos() + r == self@.value_pos(index as int),
    {
        match self.header.fixed_value_length {
            Some(v) => {
                assert(self.buf.len() == self@.buf.len());
                times(index, v.get())
            },
            None => {
                let offset = self.offset(index);
                if self.header.fixed_key_length.is_some() {
                    offset
                } else {
                    // skip the bytes of the key
                    let values = self.values_buf();
                    let slot = &values[offset..values.len()];
                    assert(slot@ =~= self@.buf.skip(self@.values_pos() + offset));
                    let (key_len, varint_sz) = varint::deserialize(slot).unwrap();
                    offset + (key_len as usize + varint_sz)
                }
            },
        }
    }

    /// Key `idx` as it is stored.
    pub fn index_key(&self, idx: usize) -> (r: &[u8])
        requires
            self@.wf(),
            idx < self@.header.children,
        ensures
            r@ == self@.items()[idx as int].0,
            r@ == self@.keys()[idx as int],
    {
        proof {
            lemma_holds_key(self@, self@.items(), idx as int);
        }
        self.key_at(idx)
    }

    /// The bytes where key `idx` says that it stands.
    fn key_at(&self, idx: usize) -> (r: &[u8])
        requires
            self@.key_readable(idx as int),
        ensures
            r@ == self@.key(idx as int),
    {
        proof {
            lemma_table_small(self.header.children, self.header.offset_bytes);
        }
        let offset_sz = self.header.children as usize * self.header.offset_bytes as usize;
        let data = self.data_buf();
        assert(self.buf.len() == self@.buf.len());
        match self.header.fixed_key_length {
            Some(k) => {
                let start = offset_sz + times(idx, k.get());
                let r = &data[start..start + k.get() as usize];
                assert(r@ =~= self@.key(idx as int));
                r
            },
            None => {
                // find offset for key or combined offset
                let start = offset_sz + self.offset(idx);
                let buf = &data[start..data.len()];
                assert(buf@ =~= self@.buf.skip(self@.key_pos(idx as int)));
                let (key_len, varint_sz) = varint::deserialize(buf).unwrap();
                let end = varint_sz + key_len as usize;
                &buf[varint_sz..end]
            },
        }
    }

    /// Value `idx`.
    pub fn index_value(&self, idx: usize) -> (r: &[u8])
        requires
            self@.wf(),
            idx < self@.header.children,
        ensures
            r@ == self@.items()[idx as int].1,
    {
        proof {
            lemma_holds_value(self@, self@.items(), idx as int);
        }
        assert(self.buf.len() == self@.buf.len());
        let buf = self.value_buf_for_offset(idx);
        match self.header.fixed_value_length {
            Some(v) => {
                let r = &buf[0..v.get() as usize];
                assert(r@ =~= self@.value(idx as int));
                r
            },
            None => {
                let (value_len, varint_sz) = varint::deserialize(buf).unwrap();
                let end = varint_sz + value_len as usize;
                &buf[varint_sz..end]
            },
        }
    }
}

pub proof fn lemma_table_small(children: u16, width: u8)
    ensures
        0 <= children * width <= 65535 * 255,
{
    assert(0 <= children * width <= 65535 * 255) by (nonlinear_arith)
        requires
            0 <= children <= 65535,
            0 <= width <= 255,
    ;
}

/// The room that `count` pieces of `len` bytes take.
pub fn times(count: usize, len: u64) -> (r: usize)
    requires
        count * len <= usize::MAX,
    ensures
        r == count * len,
{
    if count == 0 {
        assert(0 * len == 0) by (nonlinear_arith);
        0
    } else {
        assert(len <= count * len) by (nonlinear_arith)
            requires
                count > 0,
                0 <= len,
        ;
        count * len as usize
    }
}

} // verus!
