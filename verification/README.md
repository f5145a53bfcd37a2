# sled_node

The node of a B+ tree as one packed, immutable sorted string table: a header, the low
and the high key, and then the items, with an offset table only where lengths vary.
Keys leave out the prefix that all keys within the bounds of the node share.

Every function under `src/` is verified with Verus.

- `node`, `header`, `layout`, `varint`, `bytes`, `order`, `nonzero`: what a node is, byte
  by byte, and the order of keys.
- `buffers`, `writing`, `create`, `raw`: reading and writing the parts of a node, making
  a node out of items, and nodes as plain bytes.
- `search`, `range`, `prefix`: finding keys and children, successors and predecessors.
- `stitch`, `update`, `link`: one item inserted, replaced or removed.
- `split`, `policy`: splits and merges, and when they are due.
- `printed`: what debug output says of a node.
- `contents`, `laws`: what a node says about its keys, and what holds across operations:
  updates change one key and no other, a split keeps every entry and a merge undoes it,
  each key within the bounds of an index node has exactly one child.

`app/` holds the debug output and the choice of thresholds for a build.
