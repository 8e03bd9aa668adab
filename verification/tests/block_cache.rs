use fs_jcb::block_device::block_cache::{BlockCache, LRU};
use fs_jcb::block_device::mem::MemBlockDevice;
use fs_jcb::block_device::{BlockDevice, Device};

fn device() -> MemBlockDevice {
    MemBlockDevice::new((0u8..16).collect(), 2)
}

#[test]
fn lru_new_orders_slots() {
    let lru = LRU::new(3);
    assert_eq!(lru.tail(), 2);
}

#[test]
fn lru_visit_moves_slot_to_front() {
    let mut lru = LRU::new(3);
    lru.visit(2);
    assert_eq!(lru.tail(), 1);
    lru.visit(1);
    assert_eq!(lru.tail(), 0);
    lru.visit(0);
    assert_eq!(lru.tail(), 2);
}

#[test]
fn cache_reads_device_blocks() {
    let mut cache = BlockCache::new(device(), 2);
    let mut buf = [0u8; 4];
    assert_eq!(BlockDevice::read_at(&mut cache, 2, &mut buf), Ok(()));
    assert_eq!(buf, [8, 9, 10, 11]);
    assert_eq!(cache.block_size_log2(), 2);
}

#[test]
fn cache_read_returns_what_was_written() {
    let mut cache = BlockCache::new(device(), 2);
    assert_eq!(BlockDevice::write_at(&mut cache, 1, &[40, 41, 42, 43, 99]), Ok(()));
    let mut buf = [7u8; 5];
    assert_eq!(BlockDevice::read_at(&mut cache, 1, &mut buf), Ok(()));
    assert_eq!(buf, [40, 41, 42, 43, 7]);
}

#[test]
fn cache_eviction_writes_back_dirty_blocks() {
    // one slot: every new block evicts the previous one
    let mut cache = BlockCache::new(device(), 1);
    assert_eq!(BlockDevice::write_at(&mut cache, 0, &[1, 1, 1, 1]), Ok(()));
    let mut buf = [0u8; 4];
    assert_eq!(BlockDevice::read_at(&mut cache, 3, &mut buf), Ok(()));
    assert_eq!(buf, [12, 13, 14, 15]);
    assert_eq!(BlockDevice::read_at(&mut cache, 0, &mut buf), Ok(()));
    assert_eq!(buf, [1, 1, 1, 1]);
}

#[test]
fn cache_byte_access_through_device_view() {
    let mut cache = BlockCache::new(device(), 2);
    assert_eq!(Device::write_at(&mut cache, 3, &[50, 51, 52]), Ok(3));
    let mut buf = [0u8; 6];
    assert_eq!(Device::read_at(&mut cache, 2, &mut buf), Ok(6));
    assert_eq!(buf, [2, 50, 51, 52, 6, 7]);
    assert_eq!(BlockDevice::sync(&mut cache), Ok(()));
    let mut again = [0u8; 3];
    assert_eq!(Device::read_at(&mut cache, 3, &mut again), Ok(3));
    assert_eq!(again, [50, 51, 52]);
}

#[test]
fn cache_with_many_slots_keeps_all_blocks() {
    let mut cache = BlockCache::new(device(), 8);
    for b in 0..4usize {
        let v = (b as u8) * 10;
        assert_eq!(BlockDevice::write_at(&mut cache, b, &[v, v, v, v]), Ok(()));
    }
    for b in 0..4usize {
        let mut buf = [0u8; 4];
        assert_eq!(BlockDevice::read_at(&mut cache, b, &mut buf), Ok(()));
        let v = (b as u8) * 10;
        assert_eq!(buf, [v, v, v, v]);
    }
}

#[test]
fn cache_sync_then_eviction_reads_stored_bytes() {
    let mut cache = BlockCache::new(device(), 1);
    assert_eq!(BlockDevice::write_at(&mut cache, 2, &[9, 9, 9, 9]), Ok(()));
    assert_eq!(BlockDevice::sync(&mut cache), Ok(()));
    assert_eq!(BlockDevice::sync(&mut cache), Ok(()));
    let mut buf = [0u8; 4];
    assert_eq!(BlockDevice::read_at(&mut cache, 0, &mut buf), Ok(()));
    assert_eq!(buf, [0, 1, 2, 3]);
    assert_eq!(BlockDevice::read_at(&mut cache, 2, &mut buf), Ok(()));
    assert_eq!(buf, [9, 9, 9, 9]);
}

#[test]
fn cache_of_no_slots_can_be_made() {
    let cache = BlockCache::new(device(), 0);
    drop(cache);
}
