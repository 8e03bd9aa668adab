use fs_jcb::bfs::inode_impl::InodeImpl;
use fs_jcb::bfs::structs::{free_map_with, Alloc, DiskEntry, DiskINode, Str256, Str32, SuperBlock, NDIRECT, NODEVICE};
use fs_jcb::bfs::JCBFileSystem;
use fs_jcb::block_device::mem::MemBlockDevice;
use fs_jcb::util::Dirty;
use fs_jcb::vfs::{FileType, FsError};

fn super_block(unused: u32) -> SuperBlock {
    SuperBlock { magic: 0x2f8dbe2b, blocks: 8, unused_blocks: unused, info: Str32([0; 32]), free_map_blocks: 1 }
}

fn fs(free: &[usize], unused: u32) -> JCBFileSystem<MemBlockDevice> {
    let mut free_map = free_map_with(false, 8);
    for &i in free {
        assert_eq!(free_map.dealloc(i), Ok(()));
    }
    free_map.sync();
    JCBFileSystem {
        device: MemBlockDevice::new(vec![0; 64], 3),
        free_map,
        super_block: Dirty::new(super_block(unused)),
    }
}

#[test]
fn disk_inode_constructors() {
    let f = DiskINode::new_file();
    assert_eq!(f.type_, FileType::File);
    assert_eq!(f.size, 0);
    assert_eq!(f.nlinks, 0);
    assert_eq!(f.direct, [0u32; NDIRECT]);
    assert_eq!(f.device_inode_id, NODEVICE);
    assert_eq!(DiskINode::new_dir().type_, FileType::Dir);
    assert_eq!(DiskINode::new_symlink().type_, FileType::SymLink);
    let c = DiskINode::new_chardevice(7);
    assert_eq!(c.type_, FileType::CharDevice);
    assert_eq!(c.device_inode_id, 7);
    assert_eq!(c.atime.sec, 0);
}

#[test]
fn str256_round_trip() {
    let s = Str256::from("hello");
    assert_eq!(&s.0[..6], b"hello\0");
    assert!(s.0[5..].iter().all(|&b| b == 0));
    assert_eq!(s.as_ref(), "hello");
    assert_eq!(Str256::from("").as_ref(), "");
}

#[test]
fn str32_text() {
    let mut raw = [0u8; 32];
    raw[..6].copy_from_slice(b"simple");
    assert_eq!(Str32(raw).as_ref(), "simple");
}

#[test]
fn free_map_allocates_lowest_free_block() {
    let mut fm = free_map_with(false, 8);
    assert_eq!(fm.allocate(), None);
    assert!(!fm.dirty());
    assert_eq!(fm.dealloc(5), Ok(()));
    assert_eq!(fm.dealloc(3), Ok(()));
    assert!(fm.dirty());
    fm.sync();
    assert_eq!(fm.allocate(), Some(3));
    assert!(fm.dirty());
    assert_eq!(fm.allocate(), Some(5));
    assert_eq!(fm.allocate(), None);
}

#[test]
fn free_map_refuses_blocks_past_the_end() {
    let mut fm = free_map_with(true, 4);
    assert_eq!(fm.dealloc(9), Err(FsError::InvalidParam));
    assert!(!fm.dirty());
}

#[test]
fn free_map_dealloc_undoes_allocate() {
    let mut fm = free_map_with(true, 4);
    let id = fm.allocate().unwrap();
    assert_eq!(id, 0);
    assert_eq!(fm.dealloc(id), Ok(()));
    assert_eq!(fm.allocate(), Some(0));
}

#[test]
fn alloc_block_counts_unused_blocks() {
    let mut fs = fs(&[2, 6], 5);
    assert_eq!(fs.alloc_block(), Some(2));
    assert_eq!(fs.super_block.get().unused_blocks, 4);
    assert!(fs.super_block.dirty());
    assert_eq!(fs.alloc_block(), Some(6));
    assert_eq!(fs.super_block.get().unused_blocks, 3);
    assert_eq!(fs.alloc_block(), None);
    assert_eq!(fs.super_block.get().unused_blocks, 3);
}

#[test]
fn alloc_block_keeps_bitmap_when_superblock_counts_none() {
    let mut fs = fs(&[4], 0);
    assert_eq!(fs.alloc_block(), None);
    assert_eq!(fs.super_block.get().unused_blocks, 0);
    assert!(!fs.super_block.dirty());
    // the block stays free
    assert_eq!(fs.free_map.allocate(), Some(4));
}

#[test]
fn new_inode_file_takes_a_block() {
    let mut fs = fs(&[3], 2);
    let inode = fs.new_inode_file().ok().unwrap();
    assert_eq!(inode.read_dir_entry(0).err(), Some(FsError::NotSupported));
    assert_eq!(fs.super_block.get().unused_blocks, 1);
    assert_eq!(fs.new_inode_file().err(), Some(FsError::NoDeviceSpace));
}

#[test]
fn new_inode_dir_holds_dot_entry() {
    let mut fs = fs(&[1, 2], 2);
    let dir = fs.new_inode_dir(9).ok().unwrap();
    let dot = dir.read_dir_entry(0).ok().unwrap();
    assert_eq!(dot.inode_id, 1);
    assert_eq!(dot.name.as_ref(), ".");
    assert_eq!(dir.read_dir_entry(1).err(), Some(FsError::NotSupported));
    assert_eq!(dir.metadata().ok().unwrap().size, 520);
    assert_eq!(dir.get_entry(1), Err(FsError::NotSupported));
}

#[test]
fn inode_entries_are_held_and_removed() {
    let mut inode = InodeImpl::new(4, Dirty::new(DiskINode::new_dir()), NODEVICE);
    let e = DiskEntry { inode_id: 11, name: Str256::from("a") };
    assert_eq!(inode.write_dir_entry(2, &e), Err(FsError::NotSupported));
    let back = inode.read_dir_entry(2).ok().unwrap();
    assert_eq!(back.inode_id, 11);
    assert_eq!(back.name.as_ref(), "a");
    inode.remove_dir_entry(2);
    assert_eq!(inode.read_dir_entry(2).err(), Some(FsError::NotSupported));
}

#[test]
fn get_entry_checks_type_and_size() {
    let file = InodeImpl::new(4, Dirty::new(DiskINode::new_file()), NODEVICE);
    assert_eq!(file.get_entry(0), Err(FsError::NotDir));
    let dir = InodeImpl::new(4, Dirty::new(DiskINode::new_dir()), NODEVICE);
    assert_eq!(dir.get_entry(0), Err(FsError::EntryNotFound));
    let mut node = DiskINode::new_dir();
    node.size = 520;
    let mut big = InodeImpl::new(4, Dirty::new(node), NODEVICE);
    let e = DiskEntry { inode_id: 11, name: Str256::from("bin") };
    let _ = big.write_dir_entry(1, &e);
    assert_eq!(big.get_entry(1), Ok(String::from("bin")));
    assert_eq!(big.get_entry(0), Err(FsError::NotSupported));
    assert_eq!(big.get_entry(2), Err(FsError::EntryNotFound));
}

#[test]
fn inode_metadata_and_unsupported_io() {
    let inode = InodeImpl::new(4, Dirty::new(DiskINode::new_dir()), NODEVICE);
    let m = inode.metadata().ok().unwrap();
    assert_eq!(m.type_, FileType::Dir);
    assert_eq!(m.size, 0);
    assert_eq!(m.inode_id, 4);
    assert_eq!(m.blk_size, 4096);
    assert_eq!(m.rdev, NODEVICE);
    let mut buf = [1u8; 3];
    assert_eq!(inode.read_at(0, &mut buf), Err(FsError::NotSupported));
    assert_eq!(buf, [1, 1, 1]);
    assert_eq!(inode.write_at(0, &buf), Err(FsError::NotSupported));
    assert_eq!(inode.resize(), Err(FsError::NotSupported));
    assert_eq!(inode.find("x").err(), Some(FsError::EntryNotFound));
}

#[test]
fn create_appends_entry_for_new_node() {
    let mut fs = fs(&[5], 1);
    let mut dir = InodeImpl::new(1, Dirty::new(DiskINode::new_dir()), NODEVICE);
    assert_eq!(dir.create(&mut fs, "pipe", FileType::NamedPipe, 0).err(), Some(FsError::InvalidParam));
    let child = dir.create(&mut fs, "f", FileType::File, 0).ok().unwrap();
    let entry = dir.read_dir_entry(0).ok().unwrap();
    assert_eq!(entry.inode_id, 5);
    assert_eq!(entry.name.as_ref(), "f");
    assert_eq!(child.metadata().ok().unwrap().size, 0);
    assert_eq!(child.metadata().ok().unwrap().type_, FileType::File);
    assert_eq!(child.metadata().ok().unwrap().inode_id, 5);
    assert_eq!(dir.metadata().ok().unwrap().size, 260);
    assert_eq!(dir.find("f"), Ok(5));
    assert_eq!(dir.get_entry(0), Ok(String::from("f")));
    assert_eq!(dir.create(&mut fs, "g", FileType::Dir, 0).err(), Some(FsError::NoDeviceSpace));
}

#[test]
fn metadata_reports_stored_fields() {
    let mut node = DiskINode::new_file();
    node.size = 1234;
    node.blocks = 3;
    node.mtime.sec = 99;
    let inode = InodeImpl::new(9, Dirty::new(node), 42);
    let m = inode.metadata().ok().unwrap();
    assert_eq!(m.size, 1234);
    assert_eq!(m.blocks, 3);
    assert_eq!(m.mtime.sec, 99);
    assert_eq!(m.type_, FileType::File);
    assert_eq!(m.inode_id, 9);
    assert_eq!(m.rdev, 42);
}

#[test]
fn find_searches_counted_entries_by_name() {
    let mut node = DiskINode::new_dir();
    node.size = 520;
    let mut dir = InodeImpl::new(4, Dirty::new(node), NODEVICE);
    let _ = dir.write_dir_entry(0, &DiskEntry { inode_id: 4, name: Str256::from(".") });
    let _ = dir.write_dir_entry(1, &DiskEntry { inode_id: 17, name: Str256::from("etc") });
    let _ = dir.write_dir_entry(2, &DiskEntry { inode_id: 30, name: Str256::from("usr") });
    assert_eq!(dir.find("etc"), Ok(17));
    assert_eq!(dir.find("."), Ok(4));
    assert_eq!(dir.find("usr"), Err(FsError::EntryNotFound));
    assert_eq!(dir.find("et"), Err(FsError::EntryNotFound));
}

#[test]
fn create_fails_without_space_and_keeps_fs() {
    let mut full = fs(&[], 3);
    let mut dir = InodeImpl::new(1, Dirty::new(DiskINode::new_dir()), NODEVICE);
    assert_eq!(dir.create(&mut full, "f", FileType::File, 0).err(), Some(FsError::NoDeviceSpace));
    assert_eq!(full.super_block.get().unused_blocks, 3);
    assert_eq!(dir.read_dir_entry(0).err(), Some(FsError::NotSupported));
    let mut roomy = fs(&[2], 1);
    let sub = dir.create(&mut roomy, "d", FileType::Dir, 0).ok().unwrap();
    assert_eq!(sub.metadata().ok().unwrap().type_, FileType::Dir);
    assert_eq!(sub.read_dir_entry(0).ok().unwrap().inode_id, 2);
}

#[test]
fn create_refuses_before_using_the_name() {
    let long = "n".repeat(300);
    let mut full = fs(&[], 3);
    let mut dir = InodeImpl::new(1, Dirty::new(DiskINode::new_dir()), NODEVICE);
    assert_eq!(dir.create(&mut full, &long, FileType::SymLink, 0).err(), Some(FsError::InvalidParam));
    assert_eq!(dir.create(&mut full, &long, FileType::File, 0).err(), Some(FsError::NoDeviceSpace));
    assert_eq!(dir.metadata().ok().unwrap().size, 0);
}
