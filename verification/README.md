# search_trees

Three search trees of integer keys, with their behaviour stated in Verus
contracts and proved:

- `src/trees/bst.rs`: an unbalanced binary search tree that keeps duplicates
  (they go to the right), with insertion, deletion, membership and depth.
- `src/trees/avl.rs`: an AVL tree of distinct values that rebalances on
  insertion and deletion; every operation keeps the ordering and the balance
  factors exact and within one.
- `src/trees/page.rs`: the 4096-byte page format of the B-tree: a header, a
  slot array kept in key order, and cells packed at the end of the page.
- `src/trees/btree.rs`: a B-tree of minimum degree 3 whose nodes are such
  pages, held in a page cache. Search, insertion (splitting full pages up to
  a new root) and removal (predecessor swap, borrowing from a sibling,
  merging, collapsing an empty root) keep the B-tree invariant, and their
  contracts give the exact set of keys afterwards.

`app/main.rs` is the command-line program: it opens the tree file, runs a
short sequence of insertions and removals, and prints the tree level by level.
Writing pages to the file goes through `Pager::flush` and `Pager::flush_all`,
which hand app/ the offset and bytes of each page.

The tests under `tests/` exercise each module on concrete values.
