use fs_jcb::util::{block_size_of, BlockIter, BlockRange, Dirty};

#[test]
fn block_iter_splits_interval_into_block_parts() {
    let mut iter = BlockIter { begin: 3, end: 11, block_size_log2: 2 };
    assert_eq!(
        iter.next(),
        Some(BlockRange { block: 0, begin: 3, end: 4, block_size_log2: 2 })
    );
    assert_eq!(
        iter.next(),
        Some(BlockRange { block: 1, begin: 0, end: 4, block_size_log2: 2 })
    );
    assert_eq!(
        iter.next(),
        Some(BlockRange { block: 2, begin: 0, end: 3, block_size_log2: 2 })
    );
    assert_eq!(iter.next(), None);
    assert_eq!(iter.next(), None);
}

#[test]
fn block_iter_inside_one_block() {
    let mut iter = BlockIter { begin: 4097, end: 4100, block_size_log2: 12 };
    assert_eq!(
        iter.next(),
        Some(BlockRange { block: 1, begin: 1, end: 4, block_size_log2: 12 })
    );
    assert_eq!(iter.next(), None);
}

#[test]
fn block_iter_ranges_tile_the_interval() {
    let (begin, end) = (5usize, 37usize);
    let mut iter = BlockIter { begin, end, block_size_log2: 3 };
    let mut at = begin;
    let mut total = 0;
    while let Some(r) = iter.next() {
        assert_eq!(r.origin_begin(), at);
        assert!(r.begin < r.end && r.end <= 8);
        at = r.origin_end();
        total += r.len();
    }
    assert_eq!(at, end);
    assert_eq!(total, end - begin);
}

#[test]
fn block_iter_empty_interval() {
    let mut iter = BlockIter { begin: 9, end: 9, block_size_log2: 2 };
    assert_eq!(iter.next(), None);
    let mut backwards = BlockIter { begin: 9, end: 3, block_size_log2: 2 };
    assert_eq!(backwards.next(), None);
}

#[test]
fn block_range_measures() {
    let r = BlockRange { block: 3, begin: 1, end: 4, block_size_log2: 2 };
    assert!(!r.is_empty());
    assert_eq!(r.len(), 3);
    assert!(!r.is_full());
    assert_eq!(r.origin_begin(), 13);
    assert_eq!(r.origin_end(), 16);
    let full = BlockRange { block: 2, begin: 0, end: 4, block_size_log2: 2 };
    assert!(full.is_full());
    let empty = BlockRange { block: 2, begin: 2, end: 2, block_size_log2: 2 };
    assert!(empty.is_empty());
    assert_eq!(empty.len(), 0);
}

#[test]
fn block_size_is_power_of_two() {
    assert_eq!(block_size_of(0), 1);
    assert_eq!(block_size_of(2), 4);
    assert_eq!(block_size_of(12), 4096);
}

#[test]
fn dirty_flag_follows_writes_and_sync() {
    let mut d = Dirty::new(5u32);
    assert!(!d.dirty());
    assert_eq!(*d.get(), 5);
    assert!(!d.dirty());
    *d.get_mut() = 7;
    assert!(d.dirty());
    assert_eq!(*d.get(), 7);
    d.sync();
    assert!(!d.dirty());
    assert_eq!(*d.get(), 7);
    let n = Dirty::new_dirty(1u8);
    assert!(n.dirty());
}

#[test]
fn block_iter_one_range_per_touched_block() {
    let mut it = BlockIter { begin: 3, end: 13, block_size_log2: 2 };
    let mut ranges = Vec::new();
    while let Some(r) = it.next() {
        ranges.push(r);
    }
    assert_eq!(ranges.len(), (13 - 1) / 4 - 3 / 4 + 1);
    assert_eq!(ranges[0].block, 0);
    for i in 1..ranges.len() {
        assert_eq!(ranges[i].block, ranges[i - 1].block + 1);
        assert_eq!(ranges[i].begin, 0);
    }
    assert!(ranges[1].is_full() && ranges[2].is_full());
    assert_eq!(ranges[3].end, 1);
    assert!(it.next().is_none());
    assert_eq!((it.begin, it.end), (13, 13));
}
