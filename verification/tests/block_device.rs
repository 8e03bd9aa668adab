use fs_jcb::block_device::mem::MemBlockDevice;
use fs_jcb::block_device::{BlockDevice, DevError, Device};

/// A device of four blocks of four bytes, refusing blocks past its end.
fn mem16(data: [u8; 16]) -> MemBlockDevice {
    MemBlockDevice::new(data.to_vec(), 2)
}

#[test]
fn mod_read() {
    let mut buf = mem16([0, 1, 2, 3, 4, 5, 6, 7, 8, 9, 10, 11, 12, 13, 14, 15]);
    let mut res: [u8; 6] = [0; 6];

    // all inside
    let ret = Device::read_at(&mut buf, 3, &mut res);
    assert_eq!(ret, Ok(6));
    assert_eq!(res, [3, 4, 5, 6, 7, 8]);

    // partly inside
    let ret = Device::read_at(&mut buf, 11, &mut res);
    assert_eq!(ret, Ok(5));
    assert_eq!(res, [11, 12, 13, 14, 15, 8]);

    // all outside
    let ret = Device::read_at(&mut buf, 16, &mut res);
    assert_eq!(ret, Ok(0));
    assert_eq!(res, [11, 12, 13, 14, 15, 8]);
}

#[test]
fn mod_write() {
    let mut buf = mem16([0; 16]);
    let res: [u8; 6] = [3, 4, 5, 6, 7, 8];

    // all inside
    let ret = Device::write_at(&mut buf, 3, &res);
    assert_eq!(ret, Ok(6));
    assert_eq!(buf.as_slice(), &[0, 0, 0, 3, 4, 5, 6, 7, 8, 0, 0, 0, 0, 0, 0, 0]);

    // partly inside
    let ret = Device::write_at(&mut buf, 11, &res);
    assert_eq!(ret, Ok(5));
    assert_eq!(buf.as_slice(), &[0, 0, 0, 3, 4, 5, 6, 7, 8, 0, 0, 3, 4, 5, 6, 7]);

    // all outside
    let ret = Device::write_at(&mut buf, 16, &res);
    assert_eq!(ret, Ok(0));
    assert_eq!(buf.as_slice(), &[0, 0, 0, 3, 4, 5, 6, 7, 8, 0, 0, 3, 4, 5, 6, 7]);
}

#[test]
fn block_cache_read() {
    let mut buf = mem16([0, 1, 2, 3, 4, 5, 6, 7, 8, 9, 10, 11, 12, 13, 14, 15]);
    let mut res: [u8; 6] = [0; 6];

    // all inside
    let ret = Device::read_at(&mut buf, 3, &mut res);
    assert_eq!(ret, Ok(6));
    assert_eq!(res, [3, 4, 5, 6, 7, 8]);

    // partly inside
    let ret = Device::read_at(&mut buf, 11, &mut res);
    assert_eq!(ret, Ok(5));
    assert_eq!(res, [11, 12, 13, 14, 15, 8]);

    // all outside
    let ret = Device::read_at(&mut buf, 16, &mut res);
    assert_eq!(ret, Ok(0));
    assert_eq!(res, [11, 12, 13, 14, 15, 8]);
}

#[test]
fn block_cache_write() {
    let mut buf = mem16([0; 16]);
    let res: [u8; 6] = [3, 4, 5, 6, 7, 8];

    // all inside
    let ret = Device::write_at(&mut buf, 3, &res);
    assert_eq!(ret, Ok(6));
    assert_eq!(buf.as_slice(), &[0, 0, 0, 3, 4, 5, 6, 7, 8, 0, 0, 0, 0, 0, 0, 0]);

    // partly inside
    let ret = Device::write_at(&mut buf, 11, &res);
    assert_eq!(ret, Ok(5));
    assert_eq!(buf.as_slice(), &[0, 0, 0, 3, 4, 5, 6, 7, 8, 0, 0, 3, 4, 5, 6, 7]);

    // all outside
    let ret = Device::write_at(&mut buf, 16, &res);
    assert_eq!(ret, Ok(0));
    assert_eq!(buf.as_slice(), &[0, 0, 0, 3, 4, 5, 6, 7, 8, 0, 0, 3, 4, 5, 6, 7]);
}

#[test]
fn device_read_back_written_bytes() {
    let mut dev = mem16([0; 16]);
    let data: [u8; 7] = [9, 8, 7, 6, 5, 4, 3];
    assert_eq!(Device::write_at(&mut dev, 5, &data), Ok(7));
    let mut back = [0u8; 7];
    assert_eq!(Device::read_at(&mut dev, 5, &mut back), Ok(7));
    assert_eq!(back, data);
    // bytes outside the written interval stay as they were
    assert_eq!(dev.as_slice()[4], 0);
    assert_eq!(dev.as_slice()[12], 0);
}

#[test]
fn device_empty_transfer() {
    let mut dev = mem16([1; 16]);
    let mut empty: [u8; 0] = [];
    assert_eq!(Device::read_at(&mut dev, 20, &mut empty), Ok(0));
    assert_eq!(Device::write_at(&mut dev, 4, &empty), Ok(0));
    assert_eq!(dev.as_slice(), &[1; 16]);
}

#[test]
fn device_whole_blocks() {
    let mut dev = mem16([0; 16]);
    let data: [u8; 8] = [1, 2, 3, 4, 5, 6, 7, 8];
    assert_eq!(Device::write_at(&mut dev, 4, &data), Ok(8));
    assert_eq!(dev.as_slice(), &[0, 0, 0, 0, 1, 2, 3, 4, 5, 6, 7, 8, 0, 0, 0, 0]);
    assert_eq!(Device::sync(&mut dev), Ok(()));
}

#[test]
fn memory_device_refuses_blocks_past_its_end() {
    let mut dev = mem16([7; 16]);
    let mut buf = [0u8; 4];
    assert_eq!(BlockDevice::read_at(&mut dev, 4, &mut buf), Err(DevError));
    assert_eq!(buf, [0; 4]);
    assert_eq!(BlockDevice::write_at(&mut dev, 9, &[1, 2, 3, 4]), Err(DevError));
    assert_eq!(dev.as_slice(), &[7; 16]);
    assert_eq!(BlockDevice::read_at(&mut dev, 3, &mut buf), Ok(()));
    assert_eq!(buf, [7; 4]);
    assert_eq!(dev.block_size_log2(), 2);
}
