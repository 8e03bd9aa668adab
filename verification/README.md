# fs_jcb

A small file-system library, verified with Verus.

- `src/util.rs`: block ranges, the iteration that cuts a byte interval into
  per-block parts, and `Dirty`, a wrapper that remembers writes.
- `src/block_device/`: block devices and their byte-addressed view
  (`mod.rs`), a block device held in memory (`mem.rs`), and a write-back
  LRU block cache that is itself a block device (`block_cache.rs`).
- `src/bfs/`: the block file system: on-disk structures and the bitmap of
  free blocks (`structs.rs`, on top of the `bitvec` crate), block
  allocation (`mod.rs`) and inodes with their directory entries
  (`inode_impl.rs`).
- `src/vfs.rs`: node and file-system traits, directory listing and path
  lookup with symbolic links.
- `src/mountfs.rs`: file systems mounted on directories of other file
  systems, kept as one tree.
- `tests/`: tests of the library.
