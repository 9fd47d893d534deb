# image_maker

Packs a directory tree into a TianMu file-system image, with the layout
logic verified by Verus.

- `src/` is the verified library. `tianmu.rs` lays out the image (super
  block, block map, directories, file contents); `maker.rs` walks a source
  tree and hands each file and directory to a format that implements the
  `MakeSystem` trait of `require.rs`; `image.rs` models the image as a
  byte vector written and read like a file; `entry.rs`, `path.rs` and
  `number.rs` hold directory items, path splitting and the size argument;
  `number.rs` also proves that a number's decimal text reads back and how
  the value of joined digits splits.
  `fs_items.rs` holds the few calls into the `tianmu-fs` crate.
- `src/laws/` states and proves what the operations promise together:
  that every file of a copied tree is found by its path and reads back
  (`tree_copy.rs`), where an added item goes (the first free
  slot of the directory's blocks in chain order) and what a lookup finds
  after an item (in a directory of one block or of several), a file or a
  directory is added and what it keeps (`directories.rs`), where stored
  contents read back (`contents.rs`), which blocks a request for free
  blocks gets, that finding blocks does not reserve them while filling
  the map does, and how the empty map is laid out, twice as once
  (`block_map.rs`), and that
  a walk along a chain reports a loop only when the chain never ends
  (`chains.rs`).
- `tests/` runs the library on concrete images.
- `app/` is the command line program: it reads the source directory and
  the image file, lets the library build the image, and writes it back.
