# memtable

The in-memory table of a log-structured store, written and proved in Verus: a
skip list whose nodes stand in an arena with their records inline, an iterator
over it, and the options of a database.

- `util`: lengths of variable size.
- `common`: internal keys, a user key with a sequence number and a kind.
- `comparator`: the orders of keys.
- `record`: the bytes of an entry.
- `arena`, `node`, `chain`: memory in blocks, the links of a node in it, and the
  nodes that the links join.
- `order`: sorted entries, and what a search among them finds.
- `inline_skiplist`: the list and its iterator.
- `options`: the options.
- `laws`: what the operations promise together.

The list is written to through an exclusive reference. `app/` puts it behind a
lock for threads to share.
