//! Nodes after an update of one item.

use vstd::prelude::*;
use crate::bytes::{le_bytes, u64_to_le};
use crate::create::{buildable, built, item_views};
use crate::layout::{image, lemma_image_lengths, lemma_slot_len, slot_parts, slot_start};
use crate::node::{lemma_holds, lemma_holds_offset, Node, NodeView};
use crate::prefix;
use crate::search::search;
use crate::stitch::{hi_bytes, is_stitched, lemma_head_kept, lemma_slot_start_stitched, stitchable, stitched};
use crate::writing::{agree, keeps, key_done, key_piece, lemma_agree_equal, lemma_all_done, lemma_key_piece, lemma_offset_piece, lemma_same_head, lemma_value_piece, offset_done, value_done, value_piece};

verus! {

/// Whether the node takes no part in a merge.
pub open spec fn settled(v: NodeView) -> bool {
    !v.header.merging && v.header.merging_child is None
}

/// Where a key that is not there would be inserted.
pub open spec fn insertion_index(v: NodeView, key: Seq<u8>) -> int {
    match search(v.keys(), key) {
        Ok(i) => i,
        Err(i) => i,
    }
}

/// Whether a key can be inserted: it is not there, and the node has room.
pub open spec fn insertable(v: NodeView, key: Seq<u8>, value: Seq<u8>) -> bool {
    &&& settled(v)
    &&& search(v.keys(), key) is Err
    &&& stitchable(v, insertion_index(v, key), Some((key, value)), false)
}

/// Whether `r` is `v` with a key inserted.
pub open spec fn is_inserted(v: NodeView, r: NodeView, key: Seq<u8>, value: Seq<u8>) -> bool {
    is_stitched(v, r, insertion_index(v, key), Some((key, value)), false)
}

/// Whether a value can be replaced.
pub open spec fn replaceable(v: NodeView, index: int, value: Seq<u8>) -> bool {
    &&& settled(v)
    &&& 0 <= index < v.header.children
    &&& v.items()[index].1.len() != value.len() ==> stitchable(
        v,
        index,
        Some((v.items()[index].0, value)),
        true,
    )
}

/// Whether `r` is `v` with a value replaced: in place where the length is the same.
pub open spec fn is_replaced(v: NodeView, r: NodeView, index: int, value: Seq<u8>) -> bool {
    let key = v.items()[index].0;
    if v.items()[index].1.len() == value.len() {
        &&& r.header == v.header
        &&& r.padding == v.padding
        &&& r.buf == v.lo() + hi_bytes(v) + image(
            v.header.shape(),
            v.items().update(index, (key, value)),
        )
    } else {
        is_stitched(v, r, index, Some((key, value)), true)
    }
}

/// Whether an item can be removed.
pub open spec fn removable(v: NodeView, index: int) -> bool {
    stitchable(v, index, None, true)
}

/// Whether `r` is `v` without item `index`.
pub open spec fn is_removed(v: NodeView, r: NodeView, index: int) -> bool {
    is_stitched(v, r, index, None, true)
}

/// Where a piece keeps its place and its bytes, two nodes agree on it.
proof fn lemma_same_item(
    v: NodeView,
    t: NodeView,
    items: Seq<(Seq<u8>, Seq<u8>)>,
    want: Seq<(Seq<u8>, Seq<u8>)>,
    i: int,
)
    requires
        v.holds(items),
        t.holds(want),
        v.header == t.header,
        v.buf.len() == t.buf.len(),
        0 <= i < items.len(),
        items.len() == want.len(),
        slot_start(v.header.shape(), items, i) == slot_start(v.header.shape(), want, i),
        items[i].0 == want[i].0,
    ensures
        offset_done(v.buf, t, i),
        key_done(v.buf, t, want, i),
        items[i].1 == want[i].1 ==> value_done(v.buf, t, want, i),
{
    lemma_offset_piece(v, items, i);
    lemma_offset_piece(t, want, i);
    lemma_agree_equal(v.buf, t.buf, t.offset_pos(i), t.header.offset_bytes as int);
    lemma_key_piece(v, items, i);
    lemma_key_piece(t, want, i);
    lemma_value_piece(v, items, i);
    lemma_value_piece(t, want, i);
    if t.header.offset_bytes > 0 {
        lemma_holds_offset(v, items, i);
        lemma_holds_offset(t, want, i);
    }
    let sh = v.header.shape();
    assert(v.key_pos(i) == t.key_pos(i));
    lemma_agree_equal(
        v.buf,
        t.buf,
        t.key_pos(i),
        key_piece(sh, want[i].0).len() as int,
    );
    assert(v.values_pos() == t.values_pos());
    assert(v.value_pos(i) == t.value_pos(i));
    if items[i].1 == want[i].1 {
        lemma_agree_equal(
            v.buf,
            t.buf,
            t.value_pos(i),
            value_piece(sh, want[i].1).len() as int,
        );
    }
}

/// What a node with a value replaced in place holds.
pub proof fn lemma_replaced_in_place(v: NodeView, t: NodeView, index: int, value: Seq<u8>)
    requires
        v.wf(),
        0 <= index < v.header.children,
        v.items()[index].1.len() == value.len(),
        t.header == v.header,
        t.buf == v.buf.take(v.header.data_start()) + image(
            v.header.shape(),
            v.items().update(index, (v.items()[index].0, value)),
        ),
    ensures
        t.holds(v.items().update(index, (v.items()[index].0, value))),
        t.buf.len() == v.buf.len(),
        t.lo() == v.lo(),
        t.hi() == v.hi(),
        t.buf == v.lo() + hi_bytes(v) + image(
            v.header.shape(),
            v.items().update(index, (v.items()[index].0, value)),
        ),
        forall|i: int|
            0 <= i < v.header.children ==> #[trigger] slot_start(
                v.header.shape(),
                v.items().update(index, (v.items()[index].0, value)),
                i,
            ) == slot_start(v.header.shape(), v.items(), i),
{
    let sh = v.header.shape();
    let items = v.items();
    let new = (items[index].0, value);
    let want = items.update(index, new);
    assert(want =~= stitched(items, index, Some(new), true));
    lemma_slot_len(sh, items[index]);
    lemma_slot_len(sh, new);
    assert forall|i: int| 0 <= i <= v.header.children implies #[trigger] slot_start(sh, want, i)
        == slot_start(sh, items, i) by {
        lemma_slot_start_stitched(sh, items, index, Some(new), true, i);
    }
    let n = items.len() as int;
    assert(slot_parts(sh, want).take(n) =~= slot_parts(sh, want));
    assert(slot_parts(sh, items).take(n) =~= slot_parts(sh, items));
    assert(slot_start(sh, want, n) == slot_start(sh, items, n));
    assert forall|i: int| #![trigger want[i]] 0 <= i < want.len() implies {
        &&& sh.key_len matches Some(k) ==> want[i].0.len() == k
        &&& sh.value_len matches Some(x) ==> want[i].1.len() == x
        &&& want[i].0.len() <= u64::MAX
        &&& want[i].1.len() <= u64::MAX
    } by {
        assert(items[i].0.len() == want[i].0.len());
        assert(items[i].1.len() == want[i].1.len());
    }
    lemma_image_lengths(sh, items);
    lemma_image_lengths(sh, want);
    lemma_head_kept(v, t, image(sh, want));
}

/// The node with items that take the same room.
spec fn in_place_target(v: NodeView, want: Seq<(Seq<u8>, Seq<u8>)>) -> NodeView {
    NodeView {
        header: v.header,
        padding: v.padding,
        buf: v.buf.take(v.header.data_start()) + image(v.header.shape(), want),
    }
}

/// Whether all is in place but the value of item `index`.
spec fn all_but_value(
    buf: Seq<u8>,
    t: NodeView,
    want: Seq<(Seq<u8>, Seq<u8>)>,
    index: int,
) -> bool {
    &&& agree(buf, t.buf, 0, t.header.data_start())
    &&& forall|i: int| 0 <= i < want.len() ==> #[trigger] offset_done(buf, t, i)
    &&& forall|i: int| 0 <= i < want.len() ==> #[trigger] key_done(buf, t, want, i)
    &&& forall|i: int|
        0 <= i < want.len() && i != index ==> #[trigger] value_done(buf, t, want, i)
}

proof fn lemma_in_place_start(
    v: NodeView,
    t: NodeView,
    want: Seq<(Seq<u8>, Seq<u8>)>,
    index: int,
)
    requires
        v.wf(),
        t.holds(want),
        t.header == v.header,
        t.buf.len() == v.buf.len(),
        t.buf == v.buf.take(v.header.data_start()) + image(v.header.shape(), want),
        0 <= index < want.len(),
        want == v.items().update(index, want[index]),
        want[index].0 == v.items()[index].0,
        forall|i: int|
            0 <= i < v.header.children ==> #[trigger] slot_start(v.header.shape(), want, i)
                == slot_start(v.header.shape(), v.items(), i),
    ensures
        all_but_value(v.buf, t, want, index),
{
    assert(t.buf.take(t.header.data_start()) =~= v.buf.take(v.header.data_start()));
    lemma_same_head(v.buf, t.buf, t.header.data_start());
    assert forall|i: int| 0 <= i < want.len() implies {
        &&& #[trigger] offset_done(v.buf, t, i)
        &&& key_done(v.buf, t, want, i)
        &&& i != index ==> value_done(v.buf, t, want, i)
    } by {
        assert(slot_start(v.header.shape(), want, i) == slot_start(
            v.header.shape(),
            v.items(),
            i,
        ));
        lemma_same_item(v, t, v.items(), want, i);
    }
    assert forall|i: int| 0 <= i < want.len() implies #[trigger] key_done(v.buf, t, want, i) by {
        assert(offset_done(v.buf, t, i));
    }
    assert forall|i: int| 0 <= i < want.len() && i != index implies #[trigger] value_done(
        v.buf,
        t,
        want,
        i,
    ) by {
        assert(offset_done(v.buf, t, i));
    }
}

proof fn lemma_in_place_done(
    before: Seq<u8>,
    after: Seq<u8>,
    t: NodeView,
    want: Seq<(Seq<u8>, Seq<u8>)>,
    index: int,
)
    requires
        t.holds(want),
        after.len() == t.buf.len(),
        0 <= index < want.len(),
        all_but_value(before, t, want, index),
        keeps(before, after, t.buf),
        value_done(after, t, want, index),
    ensures
        after == t.buf,
{
    assert forall|i: int| 0 <= i < want.len() implies #[trigger] offset_done(after, t, i) by {
        assert(offset_done(before, t, i));
    }
    assert forall|i: int| 0 <= i < want.len() implies #[trigger] key_done(after, t, want, i) by {
        assert(key_done(before, t, want, i));
    }
    assert forall|i: int| 0 <= i < want.len() implies #[trigger] value_done(after, t, want, i) by {
        if i != index {
            assert(value_done(before, t, want, i));
        }
    }
    lemma_all_done(after, t, want);
}

impl Node {
    /// The node without item `index`.
    pub fn remove_index(&self, index: usize) -> (ret: Node)
        requires
            self@.wf(),
            removable(self@, index as int),
        ensures
            is_removed(self@, ret@, index as int),
            ret@.wf(),
            ret@.items() == self@.items().remove(index as int),
            ret@.lo() == self@.lo(),
            ret@.hi() == self@.hi(),
    {
        let ret = self.stitch(index, None, true);
        assert(ret@.items() =~= self@.items().remove(index as int));
        ret
    }

    /// The node with a key, as it is to be stored, and its value inserted.
    pub fn insert(&self, key: &[u8], value: &[u8]) -> (ret: Node)
        requires
            self@.wf(),
            insertable(self@, key@, value@),
        ensures
            is_inserted(self@, ret@, key@, value@),
            ret@.wf(),
            ret@.items() == self@.items().insert(
                insertion_index(self@, key@),
                (key@, value@),
            ),
            ret@.lo() == self@.lo(),
            ret@.hi() == self@.hi(),
    {
        let index: usize = match self.find(key) {
            Ok(prospective_offset) => prospective_offset,
            Err(prospective_offset) => prospective_offset,
        };
        let ret = self.stitch(index, Some((key, value)), false);
        assert(ret@.items() =~= self@.items().insert(index as int, (key@, value@)));
        ret
    }

    /// The node with the value of item `index` replaced.
    #[verifier::rlimit(40)]
    pub fn replace(&self, index: usize, value: &[u8]) -> (ret: Node)
        requires
            self@.wf(),
            replaceable(self@, index as int, value@),
        ensures
            is_replaced(self@, ret@, index as int, value@),
            ret@.wf(),
            ret@.items() == self@.items().update(
                index as int,
                (self@.items()[index as int].0, value@),
            ),
            ret@.lo() == self@.lo(),
            ret@.hi() == self@.hi(),
    {
        // possibly short-circuit more expensive node recreation logic
        if self.index_value(index).len() == value.len() {
            return self.replace_in_place(index, value);
        }
        let ret = self.stitch(index, Some((self.index_key(index), value)), true);
        assert(ret@.items() =~= self@.items().update(
            index as int,
            (self@.items()[index as int].0, value@),
        ));
        ret
    }

    /// The node with the value of item `index` replaced by one of the same length.
    fn replace_in_place(&self, index: usize, value: &[u8]) -> (ret: Node)
        requires
            self@.wf(),
            index < self@.header.children,
            self@.items()[index as int].1.len() == value@.len(),
        ensures
            is_replaced(self@, ret@, index as int, value@),
            ret@.wf(),
            ret@.items() == self@.items().update(
                index as int,
                (self@.items()[index as int].0, value@),
            ),
            ret@.lo() == self@.lo(),
            ret@.hi() == self@.hi(),
    {
        let ghost want = self@.items().update(
            index as int,
            (self@.items()[index as int].0, value@),
        );
        let ghost t = in_place_target(self@, want);
        let mut ret = self.clone();
        proof {
            lemma_replaced_in_place(self@, t, index as int, value@);
            lemma_in_place_start(self@, t, want, index as int);
        }
        ret.put_value(index, value, Ghost(t), Ghost(want));
        proof {
            lemma_in_place_done(self@.buf, ret@.buf, t, want, index as int);
            lemma_holds(t, want);
        }
        ret
    }

    /// The index node with a child added at `at`; `None` where one is there already.
    pub fn parent_split(&self, at: &[u8], to: u64) -> (ret: Option<Node>)
        requires
            self@.wf(),
            self@.header.is_index,
            self@.header.prefix_len <= at@.len(),
            search(self@.keys(), at@.skip(self@.header.prefix_len as int)) is Err ==> insertable(
                self@,
                at@.skip(self@.header.prefix_len as int),
                le_bytes(to as nat, 8),
            ),
        ensures
            match ret {
                Some(r) => {
                    &&& search(self@.keys(), at@.skip(self@.header.prefix_len as int)) is Err
                    &&& is_inserted(
                        self@,
                        r@,
                        at@.skip(self@.header.prefix_len as int),
                        le_bytes(to as nat, 8),
                    )
                    &&& r@.wf()
                    &&& r@.items() == self@.items().insert(
                        insertion_index(self@, at@.skip(self@.header.prefix_len as int)),
                        (at@.skip(self@.header.prefix_len as int), le_bytes(to as nat, 8)),
                    )
                    &&& r@.lo() == self@.lo()
                    &&& r@.hi() == self@.hi()
                },
                None => search(self@.keys(), at@.skip(self@.header.prefix_len as int)) is Ok,
            },
    {
        let from = self.header.prefix_len as usize;
        let encoded_sep = &at[from..at.len()];
        assert(encoded_sep@ =~= at@.skip(from as int));
        if self.contains_key(encoded_sep) {
            return None;
        }
        let pid = u64_to_le(to);
        Some(self.insert(encoded_sep, pid.as_slice()))
    }

    /// A root over two children, parted at `at`.
    pub fn new_hoisted_root(left: u64, at: &[u8], right: u64) -> (ret: Node)
        requires
            buildable(0, 0, true, hoisted_items(left, at@, right)),
        ensures
            built(
                ret@,
                Seq::empty(),
                Seq::empty(),
                0,
                true,
                None,
                hoisted_items(left, at@, right),
            ),
            ret@.wf(),
            ret@.items() == hoisted_items(left, at@, right),
            ret@.lo() == Seq::<u8>::empty(),
            ret@.hi() is None,
    {
        let l = u64_to_le(left);
        let r = u64_to_le(right);
        let items: [(&[u8], &[u8]); 2] = [
            (prefix::empty(), l.as_slice()),
            (at, r.as_slice()),
        ];
        assert(item_views(items@) =~= hoisted_items(left, at@, right));
        Node::new(prefix::empty(), None, 0, true, None, &items)
    }
}

/// The items of a root over two children.
pub open spec fn hoisted_items(left: u64, at: Seq<u8>, right: u64) -> Seq<(Seq<u8>, Seq<u8>)> {
    seq![
        (Seq::<u8>::empty(), le_bytes(left as nat, 8)),
        (at, le_bytes(right as nat, 8)),
    ]
}

} // verus!
