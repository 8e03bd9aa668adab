//! An easy file system isolated from the kernel: block ranges, a dirty-tracking
//! wrapper, a byte-addressed view of block devices and a write-back block cache.
pub mod block_device;
pub mod util;
pub mod vfs;
pub mod bfs;
pub mod mountfs;
