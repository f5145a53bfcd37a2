//! Making a node out of keys and values.

use vstd::prelude::*;
use crate::bytes::{copy_prefix, le_bytes, lemma_le_bytes_len, lemma_pow256_values, pow256, u64_to_le};
use crate::header::{Header, HEADER_BYTES};
use crate::layout::{cat, fits, image, lemma_cat_piece, lemma_image_lengths, lemma_slot_len, prefixed_len, slot_parts, slot_start, Shape};
use crate::node::{allocatable, lemma_holds, lemma_holds_regions, no_padding, Node, NodeView};
use crate::nonzero::{length_of, NonZeroU64};
use crate::prefix;
use crate::varint;
use crate::writing::{agree, keeps, key_done, lemma_all_done, lemma_no_offset, lemma_same_head, offset_done, value_done};

verus! {

/// The bytes of keys and values.
pub open spec fn item_views(items: Seq<(&[u8], &[u8])>) -> Seq<(Seq<u8>, Seq<u8>)> {
    items.map_values(|p: (&[u8], &[u8])| (p.0@, p.1@))
}

/// The bytes of an optional byte string; none where it is absent.
pub open spec fn bytes_or_empty(s: Option<&[u8]>) -> Seq<u8> {
    match s {
        Some(s) => s@,
        None => Seq::empty(),
    }
}

pub open spec fn key_lens(items: Seq<(Seq<u8>, Seq<u8>)>) -> Seq<nat> {
    Seq::new(items.len(), |i: int| items[i].0.len())
}

pub open spec fn value_lens(items: Seq<(Seq<u8>, Seq<u8>)>) -> Seq<nat> {
    Seq::new(items.len(), |i: int| items[i].1.len())
}

/// The length that all have in common, where there is one that is not zero.
pub open spec fn common_len(lens: Seq<nat>) -> Option<nat> {
    if lens.len() > 0 && lens[0] > 0 && forall|i: int|
        0 <= i < lens.len() ==> #[trigger] lens[i] == lens[0] {
        Some(lens[0])
    } else {
        None
    }
}

/// The room that byte strings of these lengths take with their lengths in front.
pub open spec fn prefixed_room(lens: Seq<nat>) -> nat
    decreases lens.len(),
{
    if lens.len() == 0 {
        0
    } else {
        prefixed_room(lens.drop_last()) + prefixed_len(lens.last())
    }
}

/// The room that keys or values of these lengths take.
pub open spec fn room(lens: Seq<nat>) -> nat {
    match common_len(lens) {
        Some(k) => lens.len() * k,
        None => prefixed_room(lens),
    }
}

/// The number of bytes that it takes to count up to `total`.
pub open spec fn offset_width(total: nat) -> nat {
    if total < 0x100 {
        1
    } else if total < 0x1_0000 {
        2
    } else if total < 0x100_0000 {
        3
    } else if total < 0x1_0000_0000 {
        4
    } else if total < 0x100_0000_0000 {
        5
    } else {
        6
    }
}

/// The room for keys, values and the widest offset table.
pub open spec fn widest_room(items: Seq<(Seq<u8>, Seq<u8>)>) -> nat {
    room(key_lens(items)) + room(value_lens(items)) + 6 * items.len()
}

/// The layout of a new node: a region of its own for what has one length, and an
/// offset table, as narrow as can be, where anything is left for the slots.
pub open spec fn fresh_shape(items: Seq<(Seq<u8>, Seq<u8>)>) -> Shape {
    let key_len = common_len(key_lens(items));
    let value_len = common_len(value_lens(items));
    Shape {
        key_len,
        value_len,
        offset_bytes: if key_len is Some && value_len is Some {
            0
        } else {
            offset_width(widest_room(items))
        },
    }
}

/// The bytes that the items of a new node take.
pub open spec fn fresh_len(items: Seq<(Seq<u8>, Seq<u8>)>) -> nat {
    room(key_lens(items)) + room(value_lens(items)) + items.len() * fresh_shape(items).offset_bytes
}

/// Whether a node can be made of these items: their number fits its field, a child
/// page takes eight bytes, offsets take at most six, and the node can be allocated.
pub open spec fn buildable(
    lo_len: nat,
    hi_len: nat,
    is_index: bool,
    items: Seq<(Seq<u8>, Seq<u8>)>,
) -> bool {
    &&& items.len() <= u16::MAX
    &&& is_index && items.len() > 0 ==> items[0].1.len() == 8
    &&& common_len(key_lens(items)) is None || common_len(value_lens(items)) is None
        ==> widest_room(items) < 0x1_0000_0000_0000
    &&& allocatable((HEADER_BYTES + lo_len + hi_len + fresh_len(items)) as int)
}

/// Whether `v` is the new node of these bounds and items.
pub open spec fn built(
    v: NodeView,
    lo: Seq<u8>,
    hi: Seq<u8>,
    prefix_len: u8,
    is_index: bool,
    next: Option<NonZeroU64>,
    items: Seq<(Seq<u8>, Seq<u8>)>,
) -> bool {
    &&& v.header == (Header {
        next,
        merging_child: None,
        lo_len: lo.len() as u64,
        hi_len: hi.len() as u64,
        children: items.len() as u16,
        prefix_len,
        probation_ops_remaining: 0,
        rewrite_generations: 0,
        activity_sketch: 0,
        merging: false,
        is_index,
        fixed_key_length: v.header.fixed_key_length,
        fixed_value_length: v.header.fixed_value_length,
        offset_bytes: v.header.offset_bytes,
    })
    &&& v.header.shape() == fresh_shape(items)
    &&& v.padding == no_padding()
    &&& v.buf == lo + hi + image(fresh_shape(items), items)
}

proof fn lemma_prefixed_room_step(lens: Seq<nat>, i: int)
    requires
        0 <= i < lens.len(),
    ensures
        prefixed_room(lens.take(i + 1)) == prefixed_room(lens.take(i)) + prefixed_len(lens[i]),
{
    assert(lens.take(i + 1).drop_last() =~= lens.take(i));
}

proof fn lemma_prefixed_room_monotone(lens: Seq<nat>, i: int)
    requires
        0 <= i <= lens.len(),
    ensures
        prefixed_room(lens.take(i)) <= prefixed_room(lens),
    decreases lens.len() - i,
{
    if i == lens.len() {
        assert(lens.take(i) =~= lens);
    } else {
        lemma_prefixed_room_step(lens, i);
        lemma_prefixed_room_monotone(lens, i + 1);
    }
}

/// The room of the slots is that of what has no region of its own.
pub proof fn lemma_slots_room(sh: Shape, items: Seq<(Seq<u8>, Seq<u8>)>)
    ensures
        cat(slot_parts(sh, items)).len() == (if sh.key_len is None {
            prefixed_room(key_lens(items))
        } else {
            0
        }) + (if sh.value_len is None {
            prefixed_room(value_lens(items))
        } else {
            0
        }),
    decreases items.len(),
{
    if items.len() > 0 {
        let init = items.drop_last();
        lemma_slots_room(sh, init);
        lemma_slot_len(sh, items.last());
        assert(slot_parts(sh, items).drop_last() =~= slot_parts(sh, init));
        assert(key_lens(items).drop_last() =~= key_lens(init));
        assert(value_lens(items).drop_last() =~= value_lens(init));
    }
}

pub proof fn lemma_offset_width(total: nat)
    requires
        total < 0x1_0000_0000_0000,
    ensures
        1 <= offset_width(total) <= 6,
        total < pow256(offset_width(total)),
{
    lemma_pow256_values();
}

/// Items of which a node can be made fit its layout and its room.
pub proof fn lemma_buildable_fits(
    lo_len: nat,
    hi_len: nat,
    is_index: bool,
    items: Seq<(Seq<u8>, Seq<u8>)>,
)
    requires
        buildable(lo_len, hi_len, is_index, items),
    ensures
        fits(fresh_shape(items), items),
        image(fresh_shape(items), items).len() == fresh_len(items),
        fresh_shape(items).offset_bytes <= 6,
{
    let sh = fresh_shape(items);
    lemma_slots_room(sh, items);
    lemma_pow256_values();
    if sh.key_len is None || sh.value_len is None {
        lemma_offset_width(widest_room(items));
    }
    assert forall|i: int| #![trigger items[i]] 0 <= i < items.len() implies {
        &&& sh.key_len matches Some(k) ==> items[i].0.len() == k
        &&& sh.value_len matches Some(v) ==> items[i].1.len() == v
        &&& items[i].0.len() <= u64::MAX
        &&& items[i].1.len() <= u64::MAX
    } by {
        assert(key_lens(items)[i] == items[i].0.len());
        assert(value_lens(items)[i] == items[i].1.len());
        lemma_room_covers(key_lens(items), i);
        lemma_room_covers(value_lens(items), i);
    }
    assert(sh.key_len matches Some(k) ==> k > 0);
    assert(sh.value_len matches Some(v) ==> v > 0);
    lemma_image_lengths(sh, items);
    if sh.key_len is None {
        assert(items.len() * sh.key_stride() == 0) by (nonlinear_arith)
            requires
                sh.key_stride() == 0,
        ;
    }
    if sh.value_len is None {
        assert(items.len() * sh.value_stride() == 0) by (nonlinear_arith)
            requires
                sh.value_stride() == 0,
        ;
    }
}

/// No piece is longer than the room for all.
proof fn lemma_room_covers(lens: Seq<nat>, i: int)
    requires
        0 <= i < lens.len(),
    ensures
        lens[i] <= room(lens),
{
    match common_len(lens) {
        Some(k) => {
            assert(lens[i] == k);
            assert(k <= lens.len() * k) by (nonlinear_arith)
                requires
                    lens.len() > 0,
                    k >= 0,
            ;
        },
        None => {
            lemma_prefixed_room_step(lens, i);
            lemma_prefixed_room_monotone(lens, i + 1);
        },
    }
}

/// What a new node holds.
pub proof fn lemma_built(
    v: NodeView,
    lo: Seq<u8>,
    hi: Seq<u8>,
    prefix_len: u8,
    is_index: bool,
    next: Option<NonZeroU64>,
    items: Seq<(Seq<u8>, Seq<u8>)>,
)
    requires
        buildable(lo.len(), hi.len(), is_index, items),
        built(v, lo, hi, prefix_len, is_index, next, items),
    ensures
        v.holds(items),
        v.wf(),
        v.items() == items,
        v.lo() == lo,
        v.hi() == (if hi.len() == 0 {
            None
        } else {
            Some(hi)
        }),
        v.byte_len() == HEADER_BYTES + lo.len() + hi.len() + fresh_len(items),
{
    lemma_buildable_fits(lo.len(), hi.len(), is_index, items);
    let im = image(fresh_shape(items), items);
    assert(v.buf.skip((lo.len() + hi.len()) as int) =~= im);
    assert(v.buf.take(lo.len() as int) =~= lo);
    assert(v.buf.subrange(lo.len() as int, (lo.len() + hi.len()) as int) =~= hi);
    lemma_holds(v, items);
}

/// The length that all have in common, where there is one that is not zero.
fn fixed_length(lengths: &Vec<u64>) -> (r: Option<NonZeroU64>)
    ensures
        length_of(r) == common_len(lengths@.map_values(|l: u64| l as nat)),
{
    let ghost lens = lengths@.map_values(|l: u64| l as nat);
    if lengths.len() == 0 {
        return None;
    }
    let first = lengths[0];
    let mut i: usize = 0;
    while i < lengths.len()
        invariant
            i <= lengths.len(),
            lengths@.len() > 0,
            first == lengths@[0],
            lens == lengths@.map_values(|l: u64| l as nat),
            forall|j: int| 0 <= j < i ==> #[trigger] lens[j] == first,
        decreases lengths.len() - i,
    {
        if lengths[i] != first {
            assert(lens[i as int] != lens[0]);
            return None;
        }
        i = i + 1;
    }
    NonZeroU64::new(first)
}

/// The room that keys or values of these lengths take.
fn storage_size(lengths: &Vec<u64>, fixed: Option<NonZeroU64>) -> (r: u64)
    requires
        length_of(fixed) == common_len(lengths@.map_values(|l: u64| l as nat)),
        room(lengths@.map_values(|l: u64| l as nat)) <= u64::MAX,
    ensures
        r == room(lengths@.map_values(|l: u64| l as nat)),
{
    let ghost lens = lengths@.map_values(|l: u64| l as nat);
    match fixed {
        Some(len) => {
            assert(len@ * lens.len() == lens.len() * len@) by (nonlinear_arith);
            len.get() * (lengths.len() as u64)
        },
        None => {
            let mut sum: u64 = 0;
            let mut i: usize = 0;
            while i < lengths.len()
                invariant
                    i <= lengths.len(),
                    lens == lengths@.map_values(|l: u64| l as nat),
                    prefixed_room(lens) <= u64::MAX,
                    sum == prefixed_room(lens.take(i as int)),
                decreases lengths.len() - i,
            {
                proof {
                    lemma_prefixed_room_step(lens, i as int);
                    lemma_prefixed_room_monotone(lens, i + 1);
                }
                sum = sum + lengths[i];
                sum = sum + varint::size(lengths[i]);
                i = i + 1;
            }
            assert(lens.take(lens.len() as int) =~= lens);
            sum
        },
    }
}

/// The number of bytes that it takes to count up to `total`.
pub fn bytes_per_offset(total: u64) -> (r: u8)
    requires
        total < 0x1_0000_0000_0000,
    ensures
        r == offset_width(total as nat),
{
    if total < 0x100 {
        1
    } else if total < 0x1_0000 {
        2
    } else if total < 0x100_0000 {
        3
    } else if total < 0x1_0000_0000 {
        4
    } else if total < 0x100_0000_0000 {
        5
    } else {
        6
    }
}

impl Node {
    /// A node of the given header, bounds and size whose items are still to be written.
    pub(crate) fn blank(header: Header, lo: &[u8], hi: Option<&[u8]>, total: usize) -> (ret: Node)
        requires
            header.lo_len == lo@.len(),
            header.hi_len == bytes_or_empty(hi).len(),
            header.data_start() <= total,
        ensures
            ret@.header == header,
            ret@.padding == no_padding(),
            ret@.buf.len() == total,
            ret@.buf.take(header.data_start()) == lo@ + bytes_or_empty(hi),
    {
        let ghost d = header.data_start();
        let padding: [u8; 7] = [0, 0, 0, 0, 0, 0, 0];
        assert(padding@ =~= no_padding());
        let mut ret = Node { header, padding, buf: vec![0u8; total] };
        copy_prefix(ret.lo_mut(), lo);
        let ghost with_lo = ret@.buf;
        assert(with_lo.take(lo@.len() as int) =~= lo@);
        if let Some(h) = hi {
            if let Some(hi_buf) = ret.hi_mut() {
                copy_prefix(hi_buf, h);
            }
        }
        assert(ret@.buf.take(d) =~= lo@ + bytes_or_empty(hi));
        ret
    }

    /// Writes item `idx` to its places and returns where the next slot starts.
    fn put_item(
        &mut self,
        idx: usize,
        offset: usize,
        k: &[u8],
        v: &[u8],
        Ghost(t): Ghost<NodeView>,
        Ghost(its): Ghost<Seq<(Seq<u8>, Seq<u8>)>>,
    ) -> (next: usize)
        requires
            t.holds(its),
            idx < its.len(),
            its[idx as int] == (k@, v@),
            offset == slot_start(t.header.shape(), its, idx as int),
            old(self)@.header == t.header,
            old(self)@.padding == t.padding,
            old(self)@.buf.len() == t.buf.len(),
        ensures
            final(self)@.header == t.header,
            final(self)@.padding == t.padding,
            final(self)@.buf.len() == t.buf.len(),
            keeps(old(self)@.buf, final(self)@.buf, t.buf),
            offset_done(final(self)@.buf, t, idx as int),
            key_done(final(self)@.buf, t, its, idx as int),
            value_done(final(self)@.buf, t, its, idx as int),
            next == slot_start(t.header.shape(), its, idx + 1),
    {
        let keys_vary = self.header.fixed_key_length.is_none();
        let values_vary = self.header.fixed_value_length.is_none();
        let mut next = offset;
        assert(self.buf.len() == t.buf.len());
        proof {
            lemma_holds_regions(t, its);
            lemma_cat_piece(slot_parts(t.header.shape(), its), idx as int);
            lemma_slot_len(t.header.shape(), its[idx as int]);
        }
        if keys_vary || values_vary {
            self.put_offset(idx, offset, Ghost(t), Ghost(its));
        } else {
            proof {
                lemma_no_offset(self@.buf, t, its, idx as int);
            }
        }
        if keys_vary {
            next = next + (varint::size(k.len() as u64) as usize + k.len());
        }
        if values_vary {
            next = next + (varint::size(v.len() as u64) as usize + v.len());
        }
        self.put_key(idx, k, Ghost(t), Ghost(its));
        self.put_value(idx, v, Ghost(t), Ghost(its));
        next
    }

    /// Writes the items to their places, so that the node becomes `t`.
    fn fill(&mut self, items: &[(&[u8], &[u8])], Ghost(t): Ghost<NodeView>)
        requires
            t.holds(item_views(items@)),
            old(self)@.header == t.header,
            old(self)@.padding == t.padding,
            old(self)@.buf.len() == t.buf.len(),
            agree(old(self)@.buf, t.buf, 0, t.header.data_start()),
        ensures
            final(self)@ == t,
    {
        let ghost its = item_views(items@);
        // we use either 0 or 1 offset tables.
        // - if keys and values are all equal lengths, no offset table is
        //   required
        // - if keys are equal length but values are not, we put an offset table
        //   at the beginning of the data buffer, then put each of the keys
        //   packed together, then varint-prefixed values which are addressed by
        //   the offset table
        // - if keys are not equal length but values are, the varint-prefixed keys
        //   follow the offset table, and the values are packed at the end
        // - if keys and values are both different lengths, we put an offset
        //   table at the beginning of the data buffer, then varint-prefixed
        //   keys followed inline with varint-prefixed values.
        let mut offset: usize = 0;
        let mut idx: usize = 0;
        while idx < items.len()
            invariant
                idx <= items.len(),
                its == item_views(items@),
                t.holds(its),
                t.header == self@.header,
                t.padding == self@.padding,
                self@.buf.len() == t.buf.len(),
                agree(self@.buf, t.buf, 0, t.header.data_start()),
                offset == slot_start(t.header.shape(), its, idx as int),
                forall|j: int| 0 <= j < idx ==> #[trigger] offset_done(self@.buf, t, j),
                forall|j: int| 0 <= j < idx ==> #[trigger] key_done(self@.buf, t, its, j),
                forall|j: int| 0 <= j < idx ==> #[trigger] value_done(self@.buf, t, its, j),
            decreases items.len() - idx,
        {
            let ghost before = self@.buf;
            let (k, v) = items[idx];
            assert(its[idx as int] == (k@, v@));
            offset = self.put_item(idx, offset, k, v, Ghost(t), Ghost(its));
            proof {
                assert forall|j: int| 0 <= j < idx + 1 implies #[trigger] offset_done(
                    self@.buf,
                    t,
                    j,
                ) by {
                    if j < idx {
                        assert(offset_done(before, t, j));
                    }
                }
                assert forall|j: int| 0 <= j < idx + 1 implies #[trigger] key_done(
                    self@.buf,
                    t,
                    its,
                    j,
                ) by {
                    if j < idx {
                        assert(key_done(before, t, its, j));
                    }
                }
                assert forall|j: int| 0 <= j < idx + 1 implies #[trigger] value_done(
                    self@.buf,
                    t,
                    its,
                    j,
                ) by {
                    if j < idx {
                        assert(value_done(before, t, its, j));
                    }
                }
            }
            idx = idx + 1;
        }
        proof {
            lemma_all_done(self@.buf, t, its);
        }
    }

    /// A node of the given bounds and items.
    ///
    /// The keys are given as they are to be stored: without the first `prefix_len`
    /// bytes that they share with the low key.
    pub fn new(
        lo: &[u8],
        hi: Option<&[u8]>,
        prefix_len: u8,
        is_index: bool,
        next: Option<NonZeroU64>,
        items: &[(&[u8], &[u8])],
    ) -> (ret: Node)
        requires
            buildable(lo@.len(), bytes_or_empty(hi).len(), is_index, item_views(items@)),
        ensures
            built(
                ret@,
                lo@,
                bytes_or_empty(hi),
                prefix_len,
                is_index,
                next,
                item_views(items@),
            ),
            ret@.wf(),
            ret@.items() == item_views(items@),
            ret@.lo() == lo@,
            ret@.hi() == (if bytes_or_empty(hi).len() == 0 {
                None
            } else {
                Some(bytes_or_empty(hi))
            }),
    {
        let ghost its = item_views(items@);
        let ghost hib = bytes_or_empty(hi);
        proof {
            lemma_buildable_fits(lo@.len(), hib.len(), is_index, its);
        }
        // determine if we need to use varints and an offset table, or if everything
        // is equal size we can skip this.
        let mut key_lengths: Vec<u64> = Vec::with_capacity(items.len());
        let mut value_lengths: Vec<u64> = Vec::with_capacity(items.len());
        let mut i: usize = 0;
        while i < items.len()
            invariant
                i <= items.len(),
                its == item_views(items@),
                key_lengths@.len() == i,
                value_lengths@.len() == i,
                forall|j: int| 0 <= j < i ==> #[trigger] key_lengths@[j] == its[j].0.len(),
                forall|j: int| 0 <= j < i ==> #[trigger] value_lengths@[j] == its[j].1.len(),
            decreases items.len() - i,
        {
            let (k, v) = items[i];
            key_lengths.push(k.len() as u64);
            value_lengths.push(v.len() as u64);
            i = i + 1;
        }
        assert(key_lengths@.map_values(|l: u64| l as nat) =~= key_lens(its));
        assert(value_lengths@.map_values(|l: u64| l as nat) =~= value_lens(its));

        let fixed_key_length = fixed_length(&key_lengths);
        let fixed_value_length = fixed_length(&value_lengths);
        let key_storage_size = storage_size(&key_lengths, fixed_key_length);
        let value_storage_size = storage_size(&value_lengths, fixed_value_length);

        let no_offsets = fixed_key_length.is_some() && fixed_value_length.is_some();
        let offset_bytes: u8 = if no_offsets {
            0
        } else {
            bytes_per_offset(key_storage_size + value_storage_size + 6 * items.len() as u64)
        };
        let ghost sh = fresh_shape(its);
        assert(sh.offset_bytes == offset_bytes);
        assert(offset_bytes * items@.len() <= 6 * 65535) by (nonlinear_arith)
            requires
                0 <= offset_bytes <= 6,
                0 <= items@.len() <= 65535,
        ;
        assert(offset_bytes * items@.len() == items@.len() * offset_bytes) by (nonlinear_arith);
        let offsets_storage_size: u64 = offset_bytes as u64 * items.len() as u64;

        let hi_len: usize = match hi {
            Some(h) => h.len(),
            None => 0,
        };
        let total: usize = hi_len + lo.len() + key_storage_size as usize
            + value_storage_size as usize + offsets_storage_size as usize;

        let header = Header {
            rewrite_generations: 0,
            activity_sketch: 0,
            probation_ops_remaining: 0,
            merging_child: None,
            merging: false,
            lo_len: lo.len() as u64,
            hi_len: hi_len as u64,
            fixed_key_length,
            fixed_value_length,
            offset_bytes,
            children: items.len() as u16,
            prefix_len,
            next,
            is_index,
        };

        let ghost t = NodeView {
            header,
            padding: no_padding(),
            buf: lo@ + hib + image(sh, its),
        };
        proof {
            assert(header.shape() == sh);
            lemma_built(t, lo@, hib, prefix_len, is_index, next, its);
        }
        let mut ret = Node::blank(header, lo, hi, total);
        proof {
            assert(t.buf.take(header.data_start()) =~= lo@ + hib);
            lemma_same_head(ret@.buf, t.buf, header.data_start());
        }
        ret.fill(items, Ghost(t));
        assert(ret@ == t);
        ret
    }

    /// A root with a single child.
    pub fn new_root(child_pid: u64) -> (ret: Node)
        ensures
            built(
                ret@,
                Seq::empty(),
                Seq::empty(),
                0,
                true,
                None,
                seq![(Seq::<u8>::empty(), le_bytes(child_pid as nat, 8))],
            ),
            ret@.wf(),
            ret@.items() == seq![(Seq::<u8>::empty(), le_bytes(child_pid as nat, 8))],
            ret@.lo() == Seq::<u8>::empty(),
            ret@.hi() is None,
    {
        let pid = u64_to_le(child_pid);
        let items: [(&[u8], &[u8]); 1] = [(prefix::empty(), pid.as_slice())];
        proof {
            let its = item_views(items@);
            lemma_le_bytes_len(child_pid as nat, 8);
            assert(its =~= seq![(Seq::<u8>::empty(), le_bytes(child_pid as nat, 8))]);
            assert(key_lens(its) =~= seq![0nat]);
            assert(value_lens(its) =~= seq![8nat]);
            reveal_with_fuel(prefixed_room, 2);
            assert(value_lens(its)[0] == 8);
        }
        Node::new(prefix::empty(), None, 0, true, None, &items)
    }
}

} // verus!
