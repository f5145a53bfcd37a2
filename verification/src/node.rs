//! The node and the places of its parts.

use vstd::prelude::*;
use crate::bytes::{le_value, lemma_le_value_of_bytes};
use crate::header::{Header, HEADER_BYTES};
use crate::layout::{cat, fits, image, lemma_image_lengths, lemma_image_pieces, lemma_slot_len, prefixed, slot, slot_parts, slot_start};
use crate::nonzero::length_of;
use crate::varint::{lemma_varint_bytes_len, lemma_varint_roundtrip, varint_bytes, varint_decode};

verus! {

/// What a node holds: its header and the bytes behind it.
#[verifier::ext_equal]
pub struct NodeView {
    pub header: Header,
    /// What stands between the fields of the header and its end.
    pub padding: Seq<u8>,
    /// The low key, the high key and the items.
    pub buf: Seq<u8>,
}

/// An immutable sorted string table.
#[must_use]
pub struct Node {
    pub header: Header,
    /// What stands between the fields of the header and its end: nothing of meaning,
    /// but part of the bytes of the node.
    pub padding: [u8; 7],
    /// The low key, the high key and the items.
    pub buf: Vec<u8>,
}

impl View for Node {
    type V = NodeView;

    open spec fn view(&self) -> NodeView {
        NodeView { header: self.header, padding: self.padding@, buf: self.buf@ }
    }
}

/// The padding of a new node.
pub open spec fn no_padding() -> Seq<u8> {
    seq![0, 0, 0, 0, 0, 0, 0]
}

/// Whether a node of this many bytes can be allocated.
pub open spec fn allocatable(bytes: int) -> bool {
    bytes + 7 <= isize::MAX
}

impl NodeView {
    /// The bytes that the node takes, its header included.
    pub open spec fn byte_len(self) -> int {
        HEADER_BYTES + self.buf.len()
    }

    /// Whether the low and the high key lie within the bytes.
    pub open spec fn bounded(self) -> bool {
        self.header.data_start() <= self.buf.len()
    }

    /// The inclusive lower bound of the keys.
    pub open spec fn lo(self) -> Seq<u8> {
        self.buf.take(self.header.lo_len as int)
    }

    /// The exclusive upper bound of the keys, if there is one.
    pub open spec fn hi(self) -> Option<Seq<u8>> {
        if self.header.hi_len == 0 {
            None
        } else {
            Some(self.buf.subrange(self.header.lo_len as int, self.header.data_start()))
        }
    }

    /// What the stored keys leave out in front.
    pub open spec fn prefix(self) -> Seq<u8> {
        self.lo().take(self.header.prefix_len as int)
    }

    /// The length of the offset table.
    pub open spec fn offsets_len(self) -> int {
        self.header.children * self.header.offset_bytes
    }

    /// Where entry `i` of the offset table stands.
    pub open spec fn offset_pos(self, i: int) -> int {
        self.header.data_start() + i * self.header.offset_bytes
    }

    /// Whether entry `i` of the offset table can be read.
    pub open spec fn offset_readable(self, i: int) -> bool {
        &&& 0 <= i < self.header.children
        &&& 0 < self.header.offset_bytes <= 8
        &&& self.offset_pos(i) + self.header.offset_bytes <= self.buf.len()
        &&& self.slot_offset(i) <= usize::MAX
    }

    /// Entry `i` of the offset table.
    pub open spec fn slot_offset(self, i: int) -> nat {
        le_value(
            self.buf.subrange(self.offset_pos(i), self.offset_pos(i) + self.header.offset_bytes),
        )
    }

    /// Where key `i` stands, together with its length where that is stored.
    pub open spec fn key_pos(self, i: int) -> int {
        self.header.data_start() + self.offsets_len() + match self.header.fixed_key_length {
            Some(k) => i * k@,
            None => self.slot_offset(i) as int,
        }
    }

    /// Whether key `i` can be read.
    pub open spec fn key_readable(self, i: int) -> bool {
        &&& self.bounded()
        &&& self.header.data_start() + self.offsets_len() <= self.key_pos(i) <= self.buf.len()
        &&& match self.header.fixed_key_length {
            Some(k) => self.key_pos(i) + k@ <= self.buf.len(),
            None => {
                &&& self.offset_readable(i)
                &&& varint_decode(self.buf.skip(self.key_pos(i))) is Some
                &&& self.key_pos(i) + stored_len(self.buf.skip(self.key_pos(i))) <= self.buf.len()
            },
        }
    }

    /// Key `i` as it is stored.
    pub open spec fn key(self, i: int) -> Seq<u8> {
        stored(self.buf.skip(self.key_pos(i)), length_of(self.header.fixed_key_length))
    }

    /// Where the values start.
    pub open spec fn values_pos(self) -> int {
        match (self.header.fixed_key_length, self.header.fixed_value_length) {
            (Some(k), _) => self.header.data_start() + self.offsets_len() + k@
                * self.header.children,
            (None, Some(v)) => self.buf.len() - v@ * self.header.children,
            (None, None) => self.header.data_start() + self.offsets_len(),
        }
    }

    /// Where value `i` stands, together with its length where that is stored.
    pub open spec fn value_pos(self, i: int) -> int {
        self.values_pos() + match (self.header.fixed_key_length, self.header.fixed_value_length) {
            (_, Some(v)) => i * v@,
            (Some(_), None) => self.slot_offset(i) as int,
            (None, None) => (self.slot_offset(i) + stored_len(
                self.buf.skip(self.values_pos() + self.slot_offset(i)),
            )) as int,
        }
    }

    /// Whether the place of value `i` can be found.
    pub open spec fn value_findable(self, i: int) -> bool {
        &&& self.bounded()
        &&& self.header.data_start() <= self.values_pos() <= self.buf.len()
        &&& self.header.fixed_value_length is None ==> self.offset_readable(i)
        &&& self.header.fixed_key_length is None && self.header.fixed_value_length is None ==> {
            &&& self.values_pos() + self.slot_offset(i) <= self.buf.len()
            &&& varint_decode(self.buf.skip(self.values_pos() + self.slot_offset(i))) is Some
        }
        &&& 0 <= i
        &&& self.value_pos(i) <= self.buf.len()
    }

    /// Value `i`.
    pub open spec fn value(self, i: int) -> Seq<u8> {
        stored(self.buf.skip(self.value_pos(i)), length_of(self.header.fixed_value_length))
    }

    /// The keys as they are stored and their values, in the order of the node.
    pub open spec fn items(self) -> Seq<(Seq<u8>, Seq<u8>)> {
        Seq::new(self.header.children as nat, |i: int| (self.key(i), self.value(i)))
    }

    /// The keys as they are stored.
    pub open spec fn keys(self) -> Seq<Seq<u8>> {
        Seq::new(self.header.children as nat, |i: int| self.key(i))
    }

    /// Whether the bytes are those of `items`.
    pub open spec fn holds(self, items: Seq<(Seq<u8>, Seq<u8>)>) -> bool {
        &&& self.header.children == items.len()
        &&& self.bounded()
        &&& allocatable(self.byte_len())
        &&& fits(self.header.shape(), items)
        &&& self.buf.skip(self.header.data_start()) == image(self.header.shape(), items)
    }

    /// Whether the bytes are those of a node.
    pub open spec fn wf(self) -> bool {
        self.holds(self.items())
    }
}

/// What stands at the front of `s`: `len` bytes, or as many as the varint in front
/// of them says.
pub open spec fn stored(s: Seq<u8>, len: Option<nat>) -> Seq<u8> {
    match len {
        Some(len) => s.take(len as int),
        None => match varint_decode(s) {
            Some((len, n)) => s.subrange(n as int, (n + len) as int),
            None => Seq::empty(),
        },
    }
}

/// The room that a byte string takes at the front of `s` together with its length.
pub open spec fn stored_len(s: Seq<u8>) -> nat {
    match varint_decode(s) {
        Some((len, n)) => n + len,
        None => 0,
    }
}

pub proof fn lemma_stored_prefixed(s: Seq<u8>, x: Seq<u8>)
    requires
        x.len() <= u64::MAX,
        prefixed(x).len() <= s.len(),
        s.take(prefixed(x).len() as int) == prefixed(x),
    ensures
        varint_decode(s) == Some((x.len(), varint_bytes(x.len()).len())),
        stored(s, None) == x,
        stored_len(s) == prefixed(x).len(),
{
    let n = varint_bytes(x.len()).len() as int;
    lemma_varint_bytes_len(x.len());
    assert(s.take(n) =~= s.take(prefixed(x).len() as int).take(n));
    assert(prefixed(x).take(n) =~= varint_bytes(x.len()));
    lemma_varint_roundtrip(x.len(), s);
    assert(s.subrange(n, n + x.len()) =~= s.take(prefixed(x).len() as int).skip(n));
    assert(prefixed(x).skip(n) =~= x);
}

/// The places of the four regions in a node that holds `items`.
pub proof fn lemma_holds_regions(v: NodeView, items: Seq<(Seq<u8>, Seq<u8>)>)
    requires
        v.holds(items),
    ensures
        ({
            let sh = v.header.shape();
            let n = items.len();
            let d = v.header.data_start();
            let slots = cat(slot_parts(sh, items)).len();
            &&& v.offsets_len() == n * sh.offset_bytes
            &&& v.buf.len() == d + n * sh.offset_bytes + n * sh.key_stride() + slots + n
                * sh.value_stride()
            &&& v.values_pos() == d + n * sh.offset_bytes + n * sh.key_stride() + (
            if sh.value_len is Some {
                slots as int
            } else {
                0
            })
            &&& 0 <= n * sh.offset_bytes
            &&& 0 <= n * sh.key_stride()
            &&& 0 <= n * sh.value_stride()
        }),
{
    let sh = v.header.shape();
    let n = items.len();
    lemma_image_lengths(sh, items);
    assert(n * sh.key_stride() == sh.key_stride() * n) by (nonlinear_arith);
    assert(n * sh.value_stride() == sh.value_stride() * n) by (nonlinear_arith);
    assert(0 <= n * sh.offset_bytes) by (nonlinear_arith);
    assert(0 <= n * sh.key_stride()) by (nonlinear_arith);
    assert(0 <= n * sh.value_stride()) by (nonlinear_arith);
    assert(v.buf.len() == v.header.data_start() + image(sh, items).len());
    match (v.header.fixed_key_length, v.header.fixed_value_length) {
        (Some(k), Some(w)) => {},
        (Some(k), None) => {},
        (None, Some(w)) => {
            assert(n * 0 == 0);
        },
        (None, None) => {
            assert(n * 0 == 0);
        },
    }
}

/// Entry `i` of the offset table in a node that holds `items`.
pub proof fn lemma_holds_offset(v: NodeView, items: Seq<(Seq<u8>, Seq<u8>)>, i: int)
    requires
        v.holds(items),
        0 <= i < items.len(),
        v.header.offset_bytes > 0,
    ensures
        v.slot_offset(i) == slot_start(v.header.shape(), items, i),
        v.slot_offset(i) + slot(v.header.shape(), items[i]).len() <= cat(
            slot_parts(v.header.shape(), items),
        ).len(),
        v.offset_readable(i),
{
    let sh = v.header.shape();
    let d = v.header.data_start();
    lemma_image_pieces(sh, items, i);
    lemma_holds_regions(v, items);
    let start = slot_start(sh, items, i);
    let o = i * sh.offset_bytes;
    assert(v.buf.subrange(d + o, d + o + sh.offset_bytes) =~= v.buf.skip(d).subrange(
        o,
        o + sh.offset_bytes,
    ));
    lemma_le_value_of_bytes(start, sh.offset_bytes);
}

/// The place of key `i` in a node that holds `items`.
#[verifier::rlimit(40)]
pub proof fn lemma_holds_key(v: NodeView, items: Seq<(Seq<u8>, Seq<u8>)>, i: int)
    requires
        v.holds(items),
        0 <= i < items.len(),
    ensures
        v.key_readable(i),
        v.key(i) == items[i].0,
{
    let sh = v.header.shape();
    let d = v.header.data_start();
    let t = v.buf.skip(d);
    let n = items.len();
    lemma_holds_regions(v, items);
    lemma_image_pieces(sh, items, i);
    if sh.key_len is Some {
        let k = n * sh.offset_bytes + i * sh.key_stride();
        assert(v.buf.skip(d + k).take(sh.key_stride() as int) =~= t.subrange(
            k,
            k + sh.key_stride(),
        ));
    } else {
        lemma_holds_offset(v, items, i);
        lemma_slot_len(sh, items[i]);
        assert(n * sh.key_stride() == 0);
        let s = n * sh.offset_bytes + slot_start(sh, items, i);
        let sl = slot(sh, items[i]);
        let w = v.buf.skip((d + s) as int);
        let x = prefixed(items[i].0);
        lemma_varint_bytes_len(items[i].0.len());
        assert(w.take(x.len() as int) =~= t.subrange(s as int, (s + sl.len()) as int).take(
            x.len() as int,
        ));
        assert(sl.take(x.len() as int) =~= x);
        lemma_stored_prefixed(w, items[i].0);
    }
}

/// The slot of item `i` in a node that holds `items`.
pub proof fn lemma_holds_slot(v: NodeView, items: Seq<(Seq<u8>, Seq<u8>)>, i: int)
    requires
        v.holds(items),
        0 <= i < items.len(),
        v.header.offset_bytes > 0,
    ensures
        ({
            let sh = v.header.shape();
            let n = items.len();
            let s = v.header.data_start() + n * sh.offset_bytes + n * sh.key_stride()
                + v.slot_offset(i);
            let sl = slot(sh, items[i]);
            &&& v.header.data_start() <= s
            &&& s + sl.len() <= v.buf.len()
            &&& v.buf.subrange(s, s + sl.len()) == sl
            &&& v.offset_readable(i)
        }),
{
    let sh = v.header.shape();
    let d = v.header.data_start();
    let n = items.len();
    lemma_holds_regions(v, items);
    lemma_image_pieces(sh, items, i);
    lemma_holds_offset(v, items, i);
    let s = n * sh.offset_bytes + n * sh.key_stride() + v.slot_offset(i);
    let sl = slot(sh, items[i]);
    assert(v.buf.subrange(d + s, d + s + sl.len()) =~= v.buf.skip(d).subrange(
        s as int,
        (s + sl.len()) as int,
    ));
}

/// The place of value `i` in a node that holds `items`.
#[verifier::rlimit(40)]
pub proof fn lemma_holds_value(v: NodeView, items: Seq<(Seq<u8>, Seq<u8>)>, i: int)
    requires
        v.holds(items),
        0 <= i < items.len(),
    ensures
        v.value_findable(i),
        v.header.data_start() <= v.value_pos(i) <= v.buf.len(),
        v.header.fixed_value_length is None ==> {
            &&& varint_decode(v.buf.skip(v.value_pos(i))) is Some
            &&& v.value_pos(i) + stored_len(v.buf.skip(v.value_pos(i))) <= v.buf.len()
        },
        v.header.fixed_value_length matches Some(k) ==> v.value_pos(i) + k@ <= v.buf.len(),
        v.value(i) == items[i].1,
{
    let sh = v.header.shape();
    let d = v.header.data_start();
    let n = items.len();
    lemma_holds_regions(v, items);
    let slots = d + n * sh.offset_bytes + n * sh.key_stride();
    if sh.value_len is Some {
        lemma_image_pieces(sh, items, i);
        let p = slots - d + cat(slot_parts(sh, items)).len() + i * sh.value_stride();
        assert(v.value_pos(i) == d + p);
        assert(v.buf.skip(d + p).take(sh.value_stride() as int) =~= v.buf.skip(d).subrange(
            p,
            p + sh.value_stride(),
        ));
    } else {
        lemma_holds_slot(v, items, i);
        let s = slots + v.slot_offset(i);
        let sl = slot(sh, items[i]);
        let x = prefixed(items[i].1);
        assert(v.values_pos() == slots);
        let skip: int = if sh.key_len is None {
            let y = prefixed(items[i].0);
            let w = v.buf.skip(s);
            assert(w.take(y.len() as int) =~= v.buf.subrange(s, s + sl.len()).take(y.len() as int));
            assert(sl.take(y.len() as int) =~= y);
            lemma_stored_prefixed(w, items[i].0);
            y.len() as int
        } else {
            0
        };
        assert(sl.skip(skip) =~= x);
        assert(v.value_pos(i) == s + skip);
        let w = v.buf.skip(s + skip);
        assert(w.take(x.len() as int) =~= v.buf.subrange(s, s + sl.len()).skip(skip));
        lemma_stored_prefixed(w, items[i].1);
    }
}

/// A node whose bytes are those of `items` has these items.
pub proof fn lemma_holds(v: NodeView, items: Seq<(Seq<u8>, Seq<u8>)>)
    requires
        v.holds(items),
    ensures
        v.items() == items,
        v.wf(),
{
    assert forall|i: int| 0 <= i < items.len() implies v.items()[i] == items[i] by {
        lemma_holds_key(v, items, i);
        lemma_holds_value(v, items, i);
    }
    assert(v.items() =~= items);
}

} // verus!
