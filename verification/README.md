# skiplist-rs

An ordered map kept as a skip list (Pugh, 1990), written in Verus and
proved correct.

- `src/skiplist.rs` — the skip list. Nodes live in the slots of an arena
  and link to each other by slot; a free list recycles the slots of
  deleted nodes. The contracts speak of the list as a `Map<K, V>` (its
  view), of the level of each key's node (`heights`) and of the list's
  level, and every operation keeps the list well formed and sorted.
- `src/lanes.rs` — where each forward link must point, given the levels
  of the nodes in key order, and how that changes when a node is inserted
  or removed.
- `src/height.rs` — the level of a new node, drawn from random bits
  (each further level with probability 1/4, at most `MAX_LEVEL`).
- `src/node.rs`, `src/layout.rs` — nodes, and the memory layout of a node
  stored in one allocation (a `#[repr(C)]` record followed by its links).
- `src/order.rs` — what the list needs of the key's `Ord`: a lawful total
  order. Keys that compare equal need not be identical; the list keeps the
  first such key it stored and files later equal keys under it.
- `src/text.rs` — the text that shows the lanes, one line per lane.
- `src/laws.rs` — laws that tie the operations together.
- `app/lib.rs` — writes each key of `SkipList::lanes` through its `Debug`
  and hands the result to `render_lanes`; a `Display` wrapper.
