# mini_db

A small database engine, verified with Verus.

- `src/btree/page/` — the pages of the on-disk B+ tree: page headers, leaf pages of
  (key, value) entries and internal pages of separator keys and child pointers,
  with their byte encodings and the proofs that what is written reads back.
- `src/btree/disk.rs` — the tree over an image of a file of 4096-byte blocks:
  lookup, update, removal and insertion with page splits. Every block written is
  recorded so that the caller can write it back to the file.
- `src/btree/walk.rs`, `src/btree/grow.rs` — what a lookup finds after an update, a
  removal and an insertion, stated over the image and proved one call at a time:
  for an insertion, where the key's path has its separators in order; for an
  update or a removal, on any image. That the separators stay in order after an
  insertion into a tree of more than one leaf is not proved.
- `src/btree/small.rs` — trees that are still one leaf at block 0 (fewer than
  thirty-two entries): over these the store behaves as a sorted sequence of
  entries, across any sequence of calls.
- `src/btree/frame.rs` — what an insertion leaves of the rest: the blocks it does
  not write, and the lookups of the other keys the tree holds.
- `src/btree/iterator.rs` — a cursor over the entries, and range scans.
- `src/storage/` — a key-value store on top of the tree.
- `src/schema/` — values, rows and table definitions, with key and table
  encodings that decode back to what was encoded.
- `src/memtree.rs` — an in-memory B+ tree whose insertion keeps every pair.
- `app/` — the program: file access, printing, and the error type with its
  messages.
