//! The block file system: its on-disk structures, block allocation and inodes.
use vstd::prelude::*;
use crate::util::Dirty;
use crate::vfs::FsError;
use crate::block_device::{Device, write_result};
use self::structs::{Alloc, BlockId, DiskINode, FreeMap, SuperBlock, InodeId, bits_of, first_set, lemma_first_set, NODEVICE, BLKSIZE};
use self::inode_impl::InodeImpl;
use vstd::string::StringSliceAdditionalSpecFns;

pub mod inode_impl;
pub mod structs;

verus! {


/// Block access on a byte-addressed device.
pub trait DeviceExt: Device {
    /// Reads `buf.len()` bytes at byte `offset` of block `id`; the bytes must
    /// lie within the block, and the device must hold all of them.
    fn read_block(&mut self, id: BlockId, offset: usize, buf: &mut [u8]) -> (r: Result<(), FsError>)
        requires
            old(self).dev_inv(),
            offset + old(buf)@.len() <= BLKSIZE,
            id * BLKSIZE + offset + old(buf)@.len() <= old(self).bytes().len(),
            id * BLKSIZE + offset + old(buf)@.len() <= usize::MAX,
            old(self).accepts(id * BLKSIZE + offset, old(buf)@.len() as int),
        ensures
            r is Ok,
            final(self).dev_inv(),
            final(self).bytes() == old(self).bytes(),
            forall|o: int, l: int| #[trigger] final(self).accepts(o, l) == old(self).accepts(o, l),
            final(buf)@ == old(self).bytes().subrange(
                id * BLKSIZE + offset,
                id * BLKSIZE + offset + old(buf)@.len(),
            ),
    {
        let r = self.read_at(id * BLKSIZE + offset, buf);
        assert(buf@ =~= old(self).bytes().subrange(
            id * BLKSIZE + offset,
            id * BLKSIZE + offset + old(buf)@.len(),
        ));
        Ok(())
    }

    /// Writes `buf` at byte `offset` of block `id`; the bytes must lie within
    /// the block, and the device must hold all of them.
    fn write_block(&mut self, id: BlockId, offset: usize, buf: &[u8]) -> (r: Result<(), FsError>)
        requires
            old(self).dev_inv(),
            offset + buf@.len() <= BLKSIZE,
            id * BLKSIZE + offset + buf@.len() <= old(self).bytes().len(),
            id * BLKSIZE + offset + buf@.len() <= usize::MAX,
            old(self).accepts(id * BLKSIZE + offset, buf@.len() as int),
        ensures
            r is Ok,
            final(self).dev_inv(),
            final(self).bytes() == write_result(old(self).bytes(), id * BLKSIZE + offset, buf@),
            forall|o: int, l: int| #[trigger] final(self).accepts(o, l) == old(self).accepts(o, l),
    {
        let r = self.write_at(id * BLKSIZE + offset, buf);
        Ok(())
    }
}

impl<T: Device> DeviceExt for T {
}

/// A block file system on a byte-addressed device, with its bitmap of free
/// blocks and its superblock.
pub struct JCBFileSystem<D: Device> {
    pub device: D,
    pub free_map: FreeMap,
    pub super_block: Dirty<SuperBlock>,
}

impl<D: Device> JCBFileSystem<D> {
    /// Takes the lowest free block, if there is one and the superblock counts
    /// an unused block; the count then goes down by one.
    pub fn alloc_block(&mut self) -> (r: Option<BlockId>)
        ensures
            final(self).device == old(self).device,
            ({
                let free = bits_of(old(self).free_map.val());
                let sb = old(self).super_block.val();
                let sb2 = final(self).super_block.val();
                &&& first_set(free) is None ==> r is None && bits_of(final(self).free_map.val()) == free
                    && final(self).free_map.is_dirty() == old(self).free_map.is_dirty()
                    && final(self).super_block == old(self).super_block
                &&& first_set(free) is Some && sb.unused_blocks == 0 ==> r is None && bits_of(
                    final(self).free_map.val(),
                ) == free && final(self).free_map.is_dirty() && final(self).super_block == old(
                    self,
                ).super_block
                &&& first_set(free) is Some && sb.unused_blocks > 0 ==> r is Some
                &&& r matches Some(id) ==> {
                    &&& first_set(free) == Some(id as int)
                    &&& sb.unused_blocks > 0
                    &&& bits_of(final(self).free_map.val()) == free.update(id as int, false)
                    &&& final(self).free_map.is_dirty()
                    &&& final(self).super_block.is_dirty()
                    &&& sb2.unused_blocks == sb.unused_blocks - 1
                    &&& sb2.magic == sb.magic
                    &&& sb2.blocks == sb.blocks
                    &&& sb2.info == sb.info
                    &&& sb2.free_map_blocks == sb.free_map_blocks
                }
            }),
    {
        proof {
            lemma_first_set(bits_of(self.free_map.val()));
        }
        if let Some(id) = self.free_map.allocate() {
            if self.super_block.get().unused_blocks == 0 {
                let r = self.free_map.dealloc(id);
                proof {
                    structs::lemma_dealloc_undoes_allocate(bits_of(old(self).free_map.val()), id as int);
                }
                return None;
            }
            let super_block = self.super_block.get_mut();
            super_block.unused_blocks = super_block.unused_blocks - 1;
            Some(id)
        } else {
            None
        }
    }

    /// A new, empty regular file in a freshly allocated block.
    pub fn new_inode_file(&mut self) -> (r: Result<InodeImpl, FsError>)
        ensures
            final(self).device == old(self).device,
            match r {
                Ok(inode) => first_set(bits_of(old(self).free_map.val())) == Some(inode.spec_id() as int)
                    && old(self).super_block.val().unused_blocks > 0
                    && bits_of(final(self).free_map.val()) == bits_of(old(self).free_map.val()).update(inode.spec_id() as int, false)
                    && final(self).super_block.val().unused_blocks == old(self).super_block.val().unused_blocks - 1
                    && inode.spec_disk_inode().val().is_empty_node(crate::vfs::FileType::File, NODEVICE)
                    && inode.spec_disk_inode().is_dirty()
                    && inode.spec_device_inode_id() == NODEVICE
                    && inode.entries() == Map::<usize, structs::DiskEntry>::empty(),
                Err(e) => e == FsError::NoDeviceSpace
                    && (first_set(bits_of(old(self).free_map.val())) is None
                        || old(self).super_block.val().unused_blocks == 0)
                    && bits_of(final(self).free_map.val()) == bits_of(old(self).free_map.val())
                    && final(self).super_block.val() == old(self).super_block.val(),
            },
    {
        proof {
            lemma_first_set(bits_of(self.free_map.val()));
        }
        let id = match self.alloc_block() {
            Some(id) => id,
            None => return Err(FsError::NoDeviceSpace),
        };
        let inode = Self::_new_inode(id, Dirty::new_dirty(DiskINode::new_file()));
        Ok(inode)
    }

    /// A new directory in a freshly allocated block, sized for the entries
    /// `.` and `..` (for `parent`), of which only `.` is held.
    pub fn new_inode_dir(&mut self, parent: InodeId) -> (r: Result<InodeImpl, FsError>)
        ensures
            final(self).device == old(self).device,
            match r {
                Ok(inode) => first_set(bits_of(old(self).free_map.val())) == Some(inode.spec_id() as int)
                    && old(self).super_block.val().unused_blocks > 0
                    && bits_of(final(self).free_map.val()) == bits_of(old(self).free_map.val()).update(inode.spec_id() as int, false)
                    && final(self).super_block.val().unused_blocks == old(self).super_block.val().unused_blocks - 1
                    && inode.spec_disk_inode().val().size == 2 * structs::DIRENT_SIZE
                    && crate::bfs::inode_impl::with_size(inode.spec_disk_inode().val(), 0).is_empty_node(
                        crate::vfs::FileType::Dir,
                        NODEVICE,
                    )
                    && inode.spec_device_inode_id() == NODEVICE
                    && inode.entries().dom() == set![0usize]
                    && crate::bfs::inode_impl::names_entry(inode.entries()[0], inode.spec_id(), ".".spec_bytes()),
                Err(e) => e == FsError::NoDeviceSpace
                    && (first_set(bits_of(old(self).free_map.val())) is None
                        || old(self).super_block.val().unused_blocks == 0)
                    && bits_of(final(self).free_map.val()) == bits_of(old(self).free_map.val())
                    && final(self).super_block.val() == old(self).super_block.val(),
            },
    {
        proof {
            lemma_first_set(bits_of(self.free_map.val()));
        }
        let id = match self.alloc_block() {
            Some(id) => id,
            None => return Err(FsError::NoDeviceSpace),
        };
        let mut inode = Self::_new_inode(id, Dirty::new_dirty(DiskINode::new_dir()));
        let _ = inode.init_dir_entry(parent);
        assert(inode.entries().dom() =~= set![0usize]);
        Ok(inode)
    }

    /// An inode numbered `id` with the given on-disk contents.
    pub fn _new_inode(id: InodeId, disk_inode: Dirty<DiskINode>) -> (r: InodeImpl)
        ensures
            r.spec_id() == id,
            r.spec_disk_inode() == disk_inode,
            r.spec_device_inode_id() == disk_inode.val().device_inode_id,
            r.entries() == Map::<usize, structs::DiskEntry>::empty(),
    {
        let device_inode_id = disk_inode.get().device_inode_id;
        InodeImpl::new(id, disk_inode, device_inode_id)
    }
}

} // verus!
