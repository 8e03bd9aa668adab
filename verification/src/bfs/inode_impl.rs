//! Inodes of the block file system and their directory entries.
use vstd::prelude::*;
use vstd::string::StringSliceAdditionalSpecFns;
use vstd::utf8::{encode_utf8, valid_utf8};
use std::collections::BTreeMap;
use crate::util::{Dirty, BlockIter, BlockRange};
use crate::block_device::write_result;
use crate::vfs::{FileType, FsError, MetaData, Timespec};
use crate::block_device::Device;
use super::structs::{
    DiskEntry, DiskINode, InodeId, Str256, DIRENT_SIZE, name_len, NODEVICE, BLKSIZE, BLKSIZE_LOG2,
    bits_of, first_set,
};
use super::{DeviceExt, JCBFileSystem};

verus! {

/// The name of `name` as bytes: the bytes before the first zero byte.
pub open spec fn entry_name(name: Str256) -> Seq<u8> {
    name.0@.take(name_len(name.0@) as int)
}

/// A name that can be read back as text: it ends with a zero byte and the
/// bytes before it are UTF-8.
pub open spec fn readable_name(name: Str256) -> bool {
    name_len(name.0@) < 256 && valid_utf8(entry_name(name))
}

/// `s` padded with zero bytes to 256 bytes.
pub open spec fn padded(s: Seq<u8>) -> Seq<u8> {
    s + Seq::new((256 - s.len()) as nat, |i: int| 0u8)
}

/// Entry `e` names inode `id` with the name `name`.
pub open spec fn names_entry(e: DiskEntry, id: InodeId, name: Seq<u8>) -> bool {
    e.inode_id == id && e.name.0@ == padded(name)
}

/// The metadata of inode `id` with on-disk contents `disk` and device id
/// `device_inode_id`: its size, block count, times and type as stored, the
/// file system's block size, and the inode and device numbers.
pub open spec fn node_metadata(id: InodeId, disk: DiskINode, device_inode_id: usize) -> MetaData {
    MetaData {
        size: disk.size as usize,
        blk_size: BLKSIZE,
        blocks: disk.blocks as usize,
        atime: disk.atime,
        mtime: disk.mtime,
        ctime: disk.ctime,
        dev: 0,
        inode_id: id,
        type_: disk.type_,
        permission: 0,
        uid: 0,
        gid: 0,
        rdev: device_inode_id,
    }
}


/// Whether two texts have the same bytes.
fn same_text(a: &str, b: &str) -> (r: bool)
    ensures
        r == (a.spec_bytes() == b.spec_bytes()),
{
    let x = a.as_bytes();
    let y = b.as_bytes();
    if x.len() != y.len() {
        return false;
    }
    let mut i: usize = 0;
    while i < x.len()
        invariant
            x@ == a.spec_bytes(),
            y@ == b.spec_bytes(),
            x@.len() == y@.len(),
            i <= x@.len(),
            forall|k: int| 0 <= k < i ==> x@[k] == y@[k],
        decreases x@.len() - i,
    {
        if x[i] != y[i] {
            return false;
        }
        i += 1;
    }
    assert(x@ =~= y@);
    true
}

/// The metadata of a node reports what its on-disk inode stores: the same
/// size, block count and type, each of the three times in its own place
/// (access, modification, change), and the node's own inode number.
pub proof fn lemma_metadata_reports_disk_inode(id: InodeId, disk: DiskINode, device_inode_id: usize)
    ensures
        ({
            let m = node_metadata(id, disk, device_inode_id);
            &&& m.size == disk.size as usize
            &&& m.blocks == disk.blocks as usize
            &&& m.type_ == disk.type_
            &&& m.atime == disk.atime
            &&& m.mtime == disk.mtime
            &&& m.ctime == disk.ctime
            &&& m.inode_id == id
            &&& m.rdev == device_inode_id
        }),
{
}

/// `d` with its size set to `len`.
pub open spec fn with_size(d: DiskINode, len: int) -> DiskINode {
    DiskINode { size: len as u32, ..d }
}

/// The smaller of two numbers.
pub open spec fn min_int(a: int, b: int) -> int {
    if a <= b {
        a
    } else {
        b
    }
}

/// The iteration over the part of `begin .. end` that lies within a file of `size` bytes.
pub open spec fn clipped_iter(size: int, begin: int, end: int) -> BlockIter {
    BlockIter {
        begin: min_int(size, begin) as usize,
        end: min_int(size, end) as usize,
        block_size_log2: BLKSIZE_LOG2,
    }
}

/// The steps of a transfer of `begin .. end` in a file of `size` bytes: each
/// part of a file block, moved to device block 1, and where its bytes are in
/// the buffer.
pub open spec fn io_plan(size: int, begin: int, end: int) -> Seq<(BlockRange, usize)> {
    let it = clipped_iter(size, begin, end);
    it.spec_ranges().map_values(
        |r: BlockRange|
            (
                BlockRange { block: 1, begin: r.begin, end: r.end, block_size_log2: r.block_size_log2 },
                (r.spec_origin_begin() - it.begin) as usize,
            ),
    )
}

/// The device bytes after writing, step by step, the buffer parts that `steps` name.
pub open spec fn apply_writes(bytes: Seq<u8>, steps: Seq<(BlockRange, usize)>, buf: Seq<u8>) -> Seq<u8>
    decreases steps.len(),
{
    if steps.len() == 0 {
        bytes
    } else {
        let (r, off) = steps.last();
        write_result(
            apply_writes(bytes, steps.drop_last(), buf),
            r.block * BLKSIZE + r.begin,
            buf.subrange(off as int, off + r.end - r.begin),
        )
    }
}

/// The buffer after reading, step by step, the device parts that `steps` name.
pub open spec fn apply_reads(bytes: Seq<u8>, steps: Seq<(BlockRange, usize)>, buf: Seq<u8>) -> Seq<u8>
    decreases steps.len(),
{
    if steps.len() == 0 {
        buf
    } else {
        let (r, off) = steps.last();
        let prev = apply_reads(bytes, steps.drop_last(), buf);
        let part = bytes.subrange(r.block * BLKSIZE + r.begin, r.block * BLKSIZE + r.end);
        Seq::new(prev.len(), |k: int| if off <= k < off + part.len() { part[k - off] } else { prev[k] })
    }
}


/// The steps of a transfer move parts of device block 1 that lie inside the
/// block, and fill the buffer from its start, one part after the other, up
/// to the length of the clipped interval.
pub proof fn lemma_io_plan(size: int, begin: int, end: int)
    requires
        0 <= size <= usize::MAX,
        0 <= begin <= usize::MAX,
        0 <= end <= usize::MAX,
    ensures
        ({
            let it = clipped_iter(size, begin, end);
            let p = io_plan(size, begin, end);
            let total = if it.begin <= it.end { it.end - it.begin } else { 0 };
            &&& forall|j: int| 0 <= j < p.len() ==> {
                &&& (#[trigger] p[j]).0.block == 1
                &&& p[j].0.begin < p[j].0.end <= BLKSIZE
                &&& p[j].1 + (p[j].0.end - p[j].0.begin) <= total
            }
            &&& forall|j: int| 0 <= j < p.len() - 1 ==> (#[trigger] p[j]).1 + (p[j].0.end - p[j].0.begin) == p[j + 1].1
            &&& p.len() > 0 ==> p[0].1 == 0 && p.last().1 + (p.last().0.end - p.last().0.begin) == total
            &&& p.len() == 0 ==> total == 0
        }),
{
    let it = clipped_iter(size, begin, end);
    let p = io_plan(size, begin, end);
    let rs = it.spec_ranges();
    assert(crate::util::block_size(12) == 4096) by {
        vstd::arithmetic::power2::lemma2_to64();
    }
    if it.begin <= it.end {
        it.lemma_ranges_tile();
        assert forall|j: int| 0 <= j < p.len() implies {
            &&& (#[trigger] p[j]).0.block == 1
            &&& p[j].0.begin < p[j].0.end <= BLKSIZE
            &&& p[j].1 + (p[j].0.end - p[j].0.begin) <= it.end - it.begin
        } by {
            let r = rs[j];
            assert(p[j].1 == r.spec_origin_begin() - it.begin);
        }
        assert forall|j: int| 0 <= j < p.len() - 1 implies (#[trigger] p[j]).1 + (p[j].0.end - p[j].0.begin) == p[j + 1].1 by {
            let r = rs[j];
            let r2 = rs[j + 1];
            assert(r.spec_origin_end() == r2.spec_origin_begin());
        }
    } else {
        assert(rs.len() == 0);
    }
}

/// An inode of the block file system, with the directory entries it holds.
pub struct InodeImpl {
    /// INode number
    id: InodeId,
    /// On-disk INode
    disk_inode: Dirty<DiskINode>,
    /// Char/block device id (major, minor)
    device_inode_id: usize,
    /// directory entries by number
    cache_entrys: BTreeMap<usize, DiskEntry>,
}

impl InodeImpl {
    /// The inode number.
    pub closed spec fn spec_id(&self) -> InodeId {
        self.id
    }

    /// The on-disk inode.
    pub closed spec fn spec_disk_inode(&self) -> Dirty<DiskINode> {
        self.disk_inode
    }

    /// The device id of a device node.
    pub closed spec fn spec_device_inode_id(&self) -> usize {
        self.device_inode_id
    }

    /// The directory entries held, by entry number.
    pub closed spec fn entries(&self) -> Map<usize, DiskEntry> {
        self.cache_entrys@
    }

    /// An inode with no entries.
    pub fn new(id: InodeId, disk_inode: Dirty<DiskINode>, device_inode_id: usize) -> (r: Self)
        ensures
            r.spec_id() == id,
            r.spec_disk_inode() == disk_inode,
            r.spec_device_inode_id() == device_inode_id,
            r.entries() == Map::<usize, DiskEntry>::empty(),
    {
        InodeImpl { id, disk_inode, device_inode_id, cache_entrys: BTreeMap::new() }
    }

    /// The node's metadata, as its on-disk inode describes it.
    pub fn metadata(&self) -> (r: Result<MetaData, FsError>)
        ensures
            r == Ok::<MetaData, FsError>(node_metadata(
                self.spec_id(),
                self.spec_disk_inode().val(),
                self.spec_device_inode_id(),
            )),
    {
        let inode = self.disk_inode.get();
        let meta_data = MetaData {
            size: inode.size as usize,
            blk_size: BLKSIZE,
            blocks: inode.blocks as usize,
            atime: inode.atime,
            mtime: inode.mtime,
            ctime: inode.ctime,
            dev: 0,
            inode_id: self.id,
            type_: inode.type_,
            permission: 0,
            uid: 0,
            gid: 0,
            rdev: self.device_inode_id,
        };
        Ok(meta_data)
    }

    /// Reading the node's contents is not supported.
    pub fn read_at(&self, offset: usize, buf: &mut [u8]) -> (r: Result<usize, FsError>)
        ensures
            r == Err::<usize, FsError>(FsError::NotSupported),
            final(buf)@ == old(buf)@,
    {
        Err(FsError::NotSupported)
    }

    /// Writing the node's contents is not supported.
    pub fn write_at(&self, offset: usize, buf: &[u8]) -> (r: Result<usize, FsError>)
        ensures
            r == Err::<usize, FsError>(FsError::NotSupported),
    {
        Err(FsError::NotSupported)
    }

    /// Resizing the node is not supported.
    pub fn resize(&self) -> (r: Result<(), FsError>)
        ensures
            r == Err::<(), FsError>(FsError::NotSupported),
    {
        Err(FsError::NotSupported)
    }

    /// Maps a block of the file to a block of the device: always block 1.
    fn get_disk_block_id(&self, file_block_id: usize) -> (r: Result<usize, FsError>)
        ensures
            r == Ok::<usize, FsError>(1),
    {
        Ok(1)
    }

    /// Resizes the file: sets the size in the on-disk inode, which becomes dirty.
    fn _resize(&mut self, len: usize) -> (r: Result<(), FsError>)
        requires
            len <= u32::MAX,
        ensures
            r is Ok,
            final(self).spec_disk_inode().val() == with_size(old(self).spec_disk_inode().val(), len as int),
            final(self).spec_disk_inode().is_dirty(),
            final(self).spec_id() == old(self).spec_id(),
            final(self).spec_device_inode_id() == old(self).spec_device_inode_id(),
            final(self).entries() == old(self).entries(),
    {
        let inode = self.disk_inode.get_mut();
        inode.size = len as u32;
        Ok(())
    }


    /// The steps of a transfer of bytes `begin .. end` of the file, cut at
    /// the file size: each part of a file block, with the device block it is
    /// stored in, and where its bytes are in the transfer buffer.
    fn _io_at(&self, begin: usize, end: usize) -> (r: Result<Vec<(BlockRange, usize)>, FsError>)
        ensures
            r matches Ok(steps) && steps@ == io_plan(
                self.spec_disk_inode().val().size as int,
                begin as int,
                end as int,
            ),
    {
        let size = self.disk_inode.get().size as usize;
        let b = if size < begin { size } else { begin };
        let e = if size < end { size } else { end };
        let mut iter = BlockIter { begin: b, end: e, block_size_log2: BLKSIZE_LOG2 };
        let ghost init = iter;
        let ghost mut done: Seq<BlockRange> = Seq::empty();
        proof {
            if b <= e {
                init.lemma_ranges_tile();
            }
        }
        let mut steps: Vec<(BlockRange, usize)> = Vec::new();
        let mut buf_off: usize = 0;
        while iter.begin < iter.end
            invariant
                init == clipped_iter(size as int, begin as int, end as int),
                size == self.spec_disk_inode().val().size,
                iter.end == init.end,
                iter.block_size_log2 == BLKSIZE_LOG2,
                init.begin <= iter.begin,
                init.spec_ranges() == done + iter.spec_ranges(),
                iter.begin < iter.end ==> iter.begin <= iter.end,
                buf_off == iter.begin - init.begin,
                steps@ == done.map_values(
                    |r: BlockRange|
                        (
                            BlockRange { block: 1, begin: r.begin, end: r.end, block_size_log2: r.block_size_log2 },
                            (r.spec_origin_begin() - init.begin) as usize,
                        ),
                ),
            decreases iter.end - iter.begin,
        {
            proof {
                iter.lemma_step();
                iter.lemma_ranges_unfold();
            }
            let ghost pre = iter;
            let mut range = iter.next().unwrap();
            let ghost orig = range;
            range.block = match self.get_disk_block_id(range.block) {
                Ok(id) => id,
                Err(e) => return Err(e),
            };
            let len = range.end - range.begin;
            steps.push((range, buf_off));
            buf_off += len;
            proof {
                assert(done + pre.spec_ranges() == (done.push(orig)) + iter.spec_ranges());
                done = done.push(orig);
                assert(steps@ =~= done.map_values(
                    |r: BlockRange|
                        (
                            BlockRange { block: 1, begin: r.begin, end: r.end, block_size_log2: r.block_size_log2 },
                            (r.spec_origin_begin() - init.begin) as usize,
                        ),
                ));
            }
        }
        assert(done =~= init.spec_ranges());
        Ok(steps)
    }


    /// Reads the file at `offset` into `buf`, part by part, from the device
    /// blocks the parts are mapped to; returns the number of bytes moved,
    /// which stops at the file size.
    fn _read_at<D: Device>(&self, device: &mut D, offset: usize, buf: &mut [u8]) -> (r: Result<usize, FsError>)
        requires
            old(device).dev_inv(),
            offset + old(buf)@.len() <= usize::MAX,
            2 * BLKSIZE <= old(device).bytes().len(),
            forall|o: int, l: int|
                BLKSIZE <= o && 0 <= l && o + l <= 2 * BLKSIZE ==> #[trigger] old(device).accepts(o, l),
        ensures
            final(device).dev_inv(),
            final(device).bytes() == old(device).bytes(),
            forall|o: int, l: int| #[trigger] final(device).accepts(o, l) == old(device).accepts(o, l),
            ({
                let size = self.spec_disk_inode().val().size as int;
                let it = clipped_iter(size, offset as int, offset + old(buf)@.len());
                &&& r == Ok::<usize, FsError>(if it.begin <= it.end { (it.end - it.begin) as usize } else { 0 })
                &&& final(buf)@ == apply_reads(
                    old(device).bytes(),
                    io_plan(size, offset as int, offset + old(buf)@.len()),
                    old(buf)@,
                )
            }),
    {
        let ghost size = self.spec_disk_inode().val().size as int;
        let ghost bytes = device.bytes();
        let end = offset + buf.len();
        proof {
            lemma_io_plan(size, offset as int, end as int);
        }
        let steps = match self._io_at(offset, end) {
            Ok(steps) => steps,
            Err(e) => return Err(e),
        };
        let ghost it = clipped_iter(size, offset as int, end as int);
        let ghost total_len = if it.begin <= it.end { it.end - it.begin } else { 0 };
        let mut i: usize = 0;
        let mut total: usize = 0;
        while i < steps.len()
            invariant
                steps@ == io_plan(size, offset as int, end as int),
                i <= steps@.len(),
                device.dev_inv(),
                device.bytes() == bytes,
                bytes == old(device).bytes(),
                forall|o: int, l: int| #[trigger] device.accepts(o, l) == old(device).accepts(o, l),
                2 * BLKSIZE <= bytes.len(),
                forall|o: int, l: int|
                    BLKSIZE <= o && 0 <= l && o + l <= 2 * BLKSIZE ==> #[trigger] old(device).accepts(o, l),
                buf@.len() == old(buf)@.len(),
                end == offset + old(buf)@.len(),
                total_len <= old(buf)@.len(),
                forall|j: int| 0 <= j < steps@.len() ==> {
                    &&& (#[trigger] steps@[j]).0.block == 1
                    &&& steps@[j].0.begin < steps@[j].0.end <= BLKSIZE
                    &&& steps@[j].1 + (steps@[j].0.end - steps@[j].0.begin) <= total_len
                },
                forall|j: int| 0 <= j < steps@.len() - 1 ==> (#[trigger] steps@[j]).1 + (steps@[j].0.end - steps@[j].0.begin) == steps@[j + 1].1,
                steps@.len() > 0 ==> steps@[0].1 == 0 && steps@.last().1 + (steps@.last().0.end - steps@.last().0.begin) == total_len,
                steps@.len() == 0 ==> total_len == 0,
                i < steps@.len() ==> total == steps@[i as int].1,
                i == steps@.len() && i > 0 ==> total == total_len,
                i == 0 ==> total == 0,
                buf@ == apply_reads(bytes, steps@.take(i as int), old(buf)@),
            decreases steps@.len() - i,
        {
            let range = steps[i].0;
            let off = steps[i].1;
            let len = range.end - range.begin;
            let mut tmp: Vec<u8> = vec![0u8; len];
            let _ = device.read_block(range.block, range.begin, tmp.as_mut_slice());
            let ghost prev = buf@;
            let mut k: usize = 0;
            while k < len
                invariant
                    k <= len,
                    tmp@.len() == len,
                    off + len <= buf@.len(),
                    buf@.len() == buf.len(),
                    buf@.len() == prev.len(),
                    forall|q: int| 0 <= q < buf@.len() ==> #[trigger] buf@[q] == if off <= q < off + k {
                        tmp@[q - off]
                    } else {
                        prev[q]
                    },
                decreases len - k,
            {
                buf[off + k] = tmp[k];
                k += 1;
            }
            proof {
                assert(steps@.take(i + 1).drop_last() =~= steps@.take(i as int));
                assert(steps@.take(i + 1).last() == steps@[i as int]);
                assert(buf@ =~= apply_reads(bytes, steps@.take(i + 1), old(buf)@));
            }
            total = off + len;
            i += 1;
        }
        assert(steps@.take(i as int) =~= steps@);
        Ok(total)
    }

    /// Writes `buf` into the file at `offset`, part by part, to the device
    /// blocks the parts are mapped to; returns the number of bytes moved,
    /// which stops at the file size.
    #[verifier::rlimit(40)]
    fn _write_at<D: Device>(&self, device: &mut D, offset: usize, buf: &[u8]) -> (r: Result<usize, FsError>)
        requires
            old(device).dev_inv(),
            offset + buf@.len() <= usize::MAX,
            2 * BLKSIZE <= old(device).bytes().len(),
            forall|o: int, l: int|
                BLKSIZE <= o && 0 <= l && o + l <= 2 * BLKSIZE ==> #[trigger] old(device).accepts(o, l),
        ensures
            final(device).dev_inv(),
            forall|o: int, l: int| #[trigger] final(device).accepts(o, l) == old(device).accepts(o, l),
            ({
                let size = self.spec_disk_inode().val().size as int;
                let it = clipped_iter(size, offset as int, offset + buf@.len());
                &&& r == Ok::<usize, FsError>(if it.begin <= it.end { (it.end - it.begin) as usize } else { 0 })
                &&& final(device).bytes() == apply_writes(
                    old(device).bytes(),
                    io_plan(size, offset as int, offset + buf@.len()),
                    buf@,
                )
            }),
    {
        let ghost size = self.spec_disk_inode().val().size as int;
        let ghost bytes = device.bytes();
        let end = offset + buf.len();
        proof {
            lemma_io_plan(size, offset as int, end as int);
        }
        let steps = match self._io_at(offset, end) {
            Ok(steps) => steps,
            Err(e) => return Err(e),
        };
        let ghost it = clipped_iter(size, offset as int, end as int);
        let ghost total_len = if it.begin <= it.end { it.end - it.begin } else { 0 };
        let mut i: usize = 0;
        let mut total: usize = 0;
        while i < steps.len()
            invariant
                steps@ == io_plan(size, offset as int, end as int),
                i <= steps@.len(),
                device.dev_inv(),
                device.bytes() == apply_writes(bytes, steps@.take(i as int), buf@),
                device.bytes().len() == bytes.len(),
                bytes == old(device).bytes(),
                forall|o: int, l: int| #[trigger] device.accepts(o, l) == old(device).accepts(o, l),
                2 * BLKSIZE <= bytes.len(),
                forall|o: int, l: int|
                    BLKSIZE <= o && 0 <= l && o + l <= 2 * BLKSIZE ==> #[trigger] old(device).accepts(o, l),
                end == offset + buf@.len(),
                total_len <= buf@.len(),
                forall|j: int| 0 <= j < steps@.len() ==> {
                    &&& (#[trigger] steps@[j]).0.block == 1
                    &&& steps@[j].0.begin < steps@[j].0.end <= BLKSIZE
                    &&& steps@[j].1 + (steps@[j].0.end - steps@[j].0.begin) <= total_len
                },
                forall|j: int| 0 <= j < steps@.len() - 1 ==> (#[trigger] steps@[j]).1 + (steps@[j].0.end - steps@[j].0.begin) == steps@[j + 1].1,
                steps@.len() > 0 ==> steps@[0].1 == 0 && steps@.last().1 + (steps@.last().0.end - steps@.last().0.begin) == total_len,
                steps@.len() == 0 ==> total_len == 0,
                i < steps@.len() ==> total == steps@[i as int].1,
                i == steps@.len() && i > 0 ==> total == total_len,
                i == 0 ==> total == 0,
            decreases steps@.len() - i,
        {
            let range = steps[i].0;
            let off = steps[i].1;
            let len = range.end - range.begin;
            let mut tmp: Vec<u8> = Vec::new();
            let mut k: usize = 0;
            while k < len
                invariant
                    k <= len,
                    off + len <= buf@.len(),
                    buf@.len() == buf.len(),
                    tmp@ == buf@.subrange(off as int, off + k),
                decreases len - k,
            {
                tmp.push(buf[off + k]);
                k += 1;
                assert(tmp@ =~= buf@.subrange(off as int, off + k));
            }
            let _ = device.write_block(range.block, range.begin, tmp.as_slice());
            proof {
                assert(steps@.take(i + 1).drop_last() =~= steps@.take(i as int));
                assert(steps@.take(i + 1).last() == steps@[i as int]);
            }
            total = off + len;
            i += 1;
        }
        assert(steps@.take(i as int) =~= steps@);
        Ok(total)
    }

    /// Entry `entry_id` from the node's contents: the contents cannot be read.
    fn _read_dir_entry(&self, entry_id: usize) -> (r: Result<DiskEntry, FsError>)
        requires
            entry_id * DIRENT_SIZE <= usize::MAX,
        ensures
            r matches Err(e) && e == FsError::NotSupported,
    {
        let mut buf = [0u8; 260];
        let r = self.read_at(entry_id * DIRENT_SIZE, &mut buf);
        match r {
            Ok(_) => Err(FsError::NotSupported),
            Err(e) => Err(e),
        }
    }

    /// Stores entry `entry_id` in the node's contents: the contents cannot be written.
    fn _write_dir_entry(&self, entry_id: usize, disk_entry: &DiskEntry) -> (r: Result<(), FsError>)
        requires
            entry_id * DIRENT_SIZE <= usize::MAX,
        ensures
            r matches Err(e) && e == FsError::NotSupported,
    {
        let buf = [0u8; 260];
        let r = self.write_at(entry_id * DIRENT_SIZE, &buf);
        match r {
            Ok(_) => Ok(()),
            Err(e) => Err(e),
        }
    }

    /// Removes entry `id` from the node's contents: nothing to do.
    fn _remove_dir_entry(&self, id: usize) {
    }

    /// Entry `entry_id`: the one held, else the one in the node's contents.
    pub fn read_dir_entry(&self, entry_id: usize) -> (r: Result<DiskEntry, FsError>)
        requires
            !self.entries().contains_key(entry_id) ==> entry_id * DIRENT_SIZE <= usize::MAX,
        ensures
            self.entries().contains_key(entry_id) ==> r == Ok::<DiskEntry, FsError>(self.entries()[entry_id]),
            !self.entries().contains_key(entry_id) ==> r == Err::<DiskEntry, FsError>(FsError::NotSupported),
    {
        if let Some(disk_entry) = self.cache_entrys.get(&entry_id) {
            return Ok(*disk_entry);
        }
        self._read_dir_entry(entry_id)
    }

    /// Holds `disk_entry` as entry `id`, then stores it in the node's contents,
    /// which fails.
    pub fn write_dir_entry(&mut self, id: usize, disk_entry: &DiskEntry) -> (r: Result<(), FsError>)
        requires
            id * DIRENT_SIZE <= usize::MAX,
        ensures
            final(self).entries() == old(self).entries().insert(id, *disk_entry),
            final(self).spec_id() == old(self).spec_id(),
            final(self).spec_disk_inode() == old(self).spec_disk_inode(),
            final(self).spec_device_inode_id() == old(self).spec_device_inode_id(),
            r == Err::<(), FsError>(FsError::NotSupported),
    {
        self.cache_entrys.insert(id, *disk_entry);
        self._write_dir_entry(id, disk_entry)
    }

    /// Drops entry `id`.
    pub fn remove_dir_entry(&mut self, id: usize)
        ensures
            final(self).entries() == old(self).entries().remove(id),
            final(self).spec_id() == old(self).spec_id(),
            final(self).spec_disk_inode() == old(self).spec_disk_inode(),
            final(self).spec_device_inode_id() == old(self).spec_device_inode_id(),
    {
        self.cache_entrys.remove(&id);
        self._remove_dir_entry(id);
    }

    /// Sizes a directory for two entries and gives it its entry `.`, then its
    /// entry `..` for `parent`; the first store into the node's contents
    /// fails, so only `.` is held.
    pub fn init_dir_entry(&mut self, parent: InodeId) -> (r: Result<(), FsError>)
        ensures
            r == Err::<(), FsError>(FsError::NotSupported),
            final(self).entries() == old(self).entries().insert(0, final(self).entries()[0]),
            names_entry(final(self).entries()[0], old(self).spec_id(), ".".spec_bytes()),
            final(self).spec_id() == old(self).spec_id(),
            final(self).spec_disk_inode().val() == with_size(old(self).spec_disk_inode().val(), 2 * DIRENT_SIZE),
            final(self).spec_disk_inode().is_dirty(),
            final(self).spec_device_inode_id() == old(self).spec_device_inode_id(),
    {
        proof {
            reveal_strlit(".");
            reveal_strlit("..");
            reveal_with_fuel(encode_utf8, 3);
            assert(encode_utf8("."@).len() <= 4);
            assert(encode_utf8(".."@).len() <= 8);
        }
        let r = self._resize(2 * DIRENT_SIZE);
        if r.is_err() {
            return r;
        }
        let dot = DiskEntry { inode_id: self.id, name: Str256::from(".") };
        let r = self.write_dir_entry(0, &dot);
        if r.is_err() {
            return r;
        }
        let dotdot = DiskEntry { inode_id: parent, name: Str256::from("..") };
        self.write_dir_entry(1, &dotdot)
    }

    /// Grows the size by one entry and adds `disk_entry` as the entry it now
    /// counts last; storing it in the node's contents fails.
    fn append_dir_entry(&mut self, disk_entry: &DiskEntry) -> (r: Result<(), FsError>)
        requires
            old(self).spec_disk_inode().val().size + DIRENT_SIZE <= u32::MAX,
        ensures
            r == Err::<(), FsError>(FsError::NotSupported),
            final(self).entries() == old(self).entries().insert(
                (old(self).spec_disk_inode().val().size / (DIRENT_SIZE as u32)) as usize,
                *disk_entry,
            ),
            final(self).spec_id() == old(self).spec_id(),
            final(self).spec_disk_inode().val() == with_size(
                old(self).spec_disk_inode().val(),
                old(self).spec_disk_inode().val().size + DIRENT_SIZE,
            ),
            final(self).spec_disk_inode().is_dirty(),
            final(self).spec_device_inode_id() == old(self).spec_device_inode_id(),
    {
        let size = self.disk_inode.get().size;
        let r = self._resize(size as usize + DIRENT_SIZE);
        if r.is_err() {
            return r;
        }
        let entry_id = size / (DIRENT_SIZE as u32);
        assert(entry_id * DIRENT_SIZE <= size) by (nonlinear_arith)
            requires entry_id == size / 260u32;
        let r = self.write_dir_entry(entry_id as usize, disk_entry);
        if r.is_err() {
            return r;
        }
        Ok(())
    }

    /// The name of entry `entry_id` of a directory.
    pub fn get_entry(&self, entry_id: usize) -> (r: Result<String, FsError>)
        requires
            self.entries().contains_key(entry_id) ==> readable_name(self.entries()[entry_id].name),
        ensures
            self.spec_disk_inode().val().type_ != FileType::Dir ==> r == Err::<String, FsError>(
                FsError::NotDir,
            ),
            self.spec_disk_inode().val().type_ == FileType::Dir && entry_id >= self.spec_disk_inode().val().size
                / (DIRENT_SIZE as u32) ==> r == Err::<String, FsError>(FsError::EntryNotFound),
            self.spec_disk_inode().val().type_ == FileType::Dir && entry_id < self.spec_disk_inode().val().size
                / (DIRENT_SIZE as u32) ==> {
                if self.entries().contains_key(entry_id) {
                    r matches Ok(s) && encode_utf8(s@) == entry_name(self.entries()[entry_id].name)
                } else {
                    r == Err::<String, FsError>(FsError::NotSupported)
                }
            },
    {
        if self.disk_inode.get().type_ != FileType::Dir {
            return Err(FsError::NotDir);
        }
        if entry_id >= self.disk_inode.get().size as usize / DIRENT_SIZE {
            return Err(FsError::EntryNotFound);
        }
        let entry = self.read_dir_entry(entry_id);
        match entry {
            Ok(e) => {
                let name = e.name;
                let s = name.as_ref().to_string();
                Ok(s)
            },
            Err(err) => Err(err),
        }
    }

    /// The number of entries that the size of the node counts.
    pub open spec fn entry_count(&self) -> int {
        (self.spec_disk_inode().val().size / (DIRENT_SIZE as u32)) as int
    }

    /// Each counted entry is held and has a name that reads as text.
    pub open spec fn entries_readable(&self) -> bool {
        forall|i: usize| #![trigger self.entries()[i]] (i as int) < self.entry_count() ==> self.entries().contains_key(i)
            && readable_name(self.entries()[i].name)
    }

    /// Entry `j` is the first counted entry whose name is `name`.
    pub open spec fn first_named(&self, name: Seq<u8>, j: int) -> bool {
        &&& 0 <= j < self.entry_count()
        &&& entry_name(self.entries()[j as usize].name) == name
        &&& forall|k: usize| #![trigger self.entries()[k]] (k as int) < j ==> entry_name(self.entries()[k].name) != name
    }

    /// The inode number and entry number of the first counted entry called
    /// `name`, if there is one.
    fn get_entry_and_inode_id(&self, name: &str) -> (r: Option<(InodeId, usize)>)
        requires
            self.entries_readable(),
        ensures
            r matches Some((id, j)) ==> self.first_named(name.spec_bytes(), j as int)
                && id == self.entries()[j].inode_id,
            r is None ==> forall|k: usize| #![trigger self.entries()[k]] (k as int) < self.entry_count()
                ==> entry_name(self.entries()[k].name) != name.spec_bytes(),
    {
        let n = self.disk_inode.get().size as usize / DIRENT_SIZE;
        let mut i: usize = 0;
        while i < n
            invariant
                n == self.entry_count(),
                self.entries_readable(),
                i <= n,
                forall|k: usize| #![trigger self.entries()[k]] k < i ==> entry_name(self.entries()[k].name) != name.spec_bytes(),
            decreases n - i,
        {
            assert(readable_name(self.entries()[i].name) && self.entries().contains_key(i));
            let entry = match self.read_dir_entry(i) {
                Ok(e) => e,
                Err(_) => return None,
            };
            let text = entry.name.as_ref();
            if same_text(text, name) {
                return Some((entry.inode_id, i));
            }
            i += 1;
        }
        None
    }

    /// The number of the node called `name` in this directory.
    pub fn find(&self, name: &str) -> (r: Result<InodeId, FsError>)
        requires
            self.entries_readable(),
        ensures
            r matches Ok(id) ==> exists|j: int| self.first_named(name.spec_bytes(), j)
                && id == self.entries()[j as usize].inode_id,
            r is Err ==> r == Err::<InodeId, FsError>(FsError::EntryNotFound)
                && forall|k: usize| #![trigger self.entries()[k]] (k as int) < self.entry_count()
                ==> entry_name(self.entries()[k].name) != name.spec_bytes(),
    {
        match self.get_entry_and_inode_id(name) {
            Some((id, _)) => Ok(id),
            None => Err(FsError::EntryNotFound),
        }
    }

    /// Makes a new file or directory called `name` in `fs` and appends an
    /// entry for it here; other node types are refused. It succeeds exactly
    /// when `fs` has a free block and its superblock counts an unused one;
    /// the name and room in the size for one more entry are needed only then.
    pub fn create<D: Device>(
        &mut self,
        fs: &mut JCBFileSystem<D>,
        name: &str,
        type_: FileType,
        mode: u32,
    ) -> (r: Result<InodeImpl, FsError>)
        requires
            (type_ == FileType::File || type_ == FileType::Dir) && first_set(
                bits_of(old(fs).free_map.val()),
            ) is Some && old(fs).super_block.val().unused_blocks > 0 ==> name.spec_bytes().len() <= 256
                && old(self).spec_disk_inode().val().size + DIRENT_SIZE <= u32::MAX,
        ensures
            final(fs).device == old(fs).device,
            type_ != FileType::File && type_ != FileType::Dir ==> r == Err::<InodeImpl, FsError>(
                FsError::InvalidParam,
            ) && *final(self) == *old(self) && *final(fs) == *old(fs),
            type_ == FileType::File || type_ == FileType::Dir ==> (r is Ok <==> (
                first_set(bits_of(old(fs).free_map.val())) is Some
                && old(fs).super_block.val().unused_blocks > 0)),
            r matches Ok(inode) ==> {
                let k = (old(self).spec_disk_inode().val().size / (DIRENT_SIZE as u32)) as usize;
                &&& final(self).entries() == old(self).entries().insert(k, final(self).entries()[k])
                &&& names_entry(final(self).entries()[k], inode.spec_id(), name.spec_bytes())
                &&& final(self).spec_id() == old(self).spec_id()
                &&& final(self).spec_disk_inode().val() == with_size(
                    old(self).spec_disk_inode().val(),
                    old(self).spec_disk_inode().val().size + DIRENT_SIZE,
                )
                &&& final(self).spec_disk_inode().is_dirty()
                &&& final(self).spec_device_inode_id() == old(self).spec_device_inode_id()
                &&& with_size(inode.spec_disk_inode().val(), 0).is_empty_node(type_, NODEVICE)
                &&& inode.spec_disk_inode().val().size == if type_ == FileType::Dir {
                    2 * DIRENT_SIZE
                } else {
                    0
                }
                &&& inode.spec_device_inode_id() == NODEVICE
                &&& type_ == FileType::File ==> inode.entries() == Map::<usize, DiskEntry>::empty()
                &&& type_ == FileType::Dir ==> inode.entries().dom() == set![0usize]
                    && names_entry(inode.entries()[0], inode.spec_id(), ".".spec_bytes())
                &&& first_set(bits_of(old(fs).free_map.val())) == Some(inode.spec_id() as int)
                &&& bits_of(final(fs).free_map.val()) == bits_of(old(fs).free_map.val()).update(
                    inode.spec_id() as int,
                    false,
                )
                &&& final(fs).super_block.val().unused_blocks == old(fs).super_block.val().unused_blocks - 1
            },
            (type_ == FileType::File || type_ == FileType::Dir) && r is Err ==> r
                == Err::<InodeImpl, FsError>(FsError::NoDeviceSpace) && *final(self) == *old(self)
                && bits_of(final(fs).free_map.val()) == bits_of(old(fs).free_map.val())
                && final(fs).super_block.val() == old(fs).super_block.val(),
    {
        let inode = match type_ {
            FileType::File => fs.new_inode_file(),
            FileType::Dir => fs.new_inode_dir(self.id),
            _ => return Err(FsError::InvalidParam),
        };
        let inode = match inode {
            Ok(inode) => inode,
            Err(e) => return Err(e),
        };
        let entry = DiskEntry { inode_id: inode.id, name: Str256::from(name) };
        let _ = self.append_dir_entry(&entry);
        Ok(inode)
    }
}

} // verus!
