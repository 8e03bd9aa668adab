//! A naive LRU cache layer for `BlockDevice`
use vstd::prelude::*;
use crate::block_device::{BlockDevice, BlockId, DevResult};
use crate::util::{block_size, block_size_of};
use std::collections::BTreeMap;

verus! {

/// What a buffer slot holds.
enum BufStatus {
    /// Nothing.
    Unused,
    /// A copy of a block that matches the device.
    Valid(BlockId),
    /// A block written since it was last stored on the device.
    Dirty(BlockId),
}

/// A buffer slot: one block's bytes and what they stand for.
struct Buf {
    content: Vec<u8>,
    buf_status: BufStatus,
}

/// The block that a slot holds, if any.
spec fn slot_block(s: BufStatus) -> Option<BlockId> {
    match s {
        BufStatus::Unused => None,
        BufStatus::Valid(b) => Some(b),
        BufStatus::Dirty(b) => Some(b),
    }
}

/// Hands out the buffer slots `0 .. capacity` in order, each once.
struct BufAllocator {
    current_id: usize,
}

impl BufAllocator {
    /// The next slot not handed out yet, if any is left below `capacity`.
    fn allocate(&mut self, capacity: usize) -> (r: Option<usize>)
        ensures
            old(self).current_id < capacity ==> r == Some(old(self).current_id)
                && final(self).current_id == old(self).current_id + 1,
            old(self).current_id >= capacity ==> r is None && final(self).current_id == old(
                self,
            ).current_id,
    {
        if self.current_id < capacity {
            self.current_id = self.current_id + 1;
            return Some(self.current_id - 1);
        }
        return None;
    }
}

/// `m` without the blocks that it maps to slot `i`.
pub open spec fn without_slot(m: Map<BlockId, usize>, i: usize) -> Map<BlockId, usize> {
    Map::new(|b: BlockId| m.contains_key(b) && m[b] != i, |b: BlockId| m[b])
}

/// Recency order of buffer slots: the most recently used one comes first.
pub struct LRU {
    list: Vec<usize>,
}

/// `s` with its first occurrence of `id` moved to the front.
pub open spec fn moved_to_front(s: Seq<usize>, id: usize, p: int) -> bool {
    &&& 0 <= p < s.len()
    &&& s[p] == id
    &&& forall|j: int| 0 <= j < p ==> s[j] != id
}

/// `after` is `before` with slot `id` moved to the front.
pub open spec fn moved_first(before: Seq<usize>, after: Seq<usize>, id: usize) -> bool {
    exists|p: int| #[trigger] moved_to_front(before, id, p) && after == seq![id].add(before.remove(p))
}

/// Moving one slot to the front keeps the order a full list of the slots below `cap`.
proof fn lemma_moved_keeps_slots(s: Seq<usize>, t: Seq<usize>, id: usize, p: int, cap: int)
    requires
        moved_to_front(s, id, p),
        t == seq![id].add(s.remove(p)),
        s.len() == cap,
        forall|k: int| 0 <= k < cap ==> (#[trigger] s[k]) < cap,
        forall|j: usize| j < cap ==> #[trigger] s.contains(j),
    ensures
        t.len() == cap,
        forall|k: int| 0 <= k < cap ==> (#[trigger] t[k]) < cap,
        forall|j: usize| j < cap ==> #[trigger] t.contains(j),
{
    assert forall|k: int| 0 <= k < cap implies (#[trigger] t[k]) < cap by {
        if k > 0 {
            if k - 1 < p {
                assert(t[k] == s[k - 1]);
            } else {
                assert(t[k] == s[k]);
            }
        }
    }
    assert forall|j: usize| j < cap implies #[trigger] t.contains(j) by {
        if j == id {
            assert(t[0] == j);
        } else {
            assert(s.contains(j));
            let q = choose|q: int| 0 <= q < s.len() && s[q] == j;
            if q < p {
                assert(t[q + 1] == j);
            } else {
                assert(q != p);
                assert(t[q] == j);
            }
        }
    }
}

impl LRU {
    /// The slots from most to least recently used.
    pub closed spec fn order(&self) -> Seq<usize> {
        self.list@
    }

    /// Slots `0 .. size`, slot 0 counted as the most recently used.
    pub fn new(size: usize) -> (lru: LRU)
        ensures
            lru.order() == Seq::new(size as nat, |i: int| i as usize),
    {
        let mut lru = LRU { list: Vec::new() };
        let mut i: usize = 0;
        while i < size
            invariant
                i <= size,
                lru.list@ == Seq::new(i as nat, |k: int| k as usize),
            decreases size - i,
        {
            lru.list.push(i);
            i += 1;
        }
        lru
    }

    /// The least recently used slot.
    pub fn tail(&self) -> (r: usize)
        requires
            self.order().len() > 0,
        ensures
            r == self.order().last(),
    {
        return self.list[self.list.len() - 1];
    }

    /// Moves slot `id` to the front: it becomes the most recently used.
    pub fn visit(&mut self, id: usize)
        requires
            old(self).order().contains(id),
        ensures
            exists|p: int|
                moved_to_front(old(self).order(), id, p) && final(self).order() == seq![id].add(
                    old(self).order().remove(p),
                ),
    {
        let mut p: usize = 0;
        while self.list[p] != id
            invariant
                p < self.list.len(),
                self.list@.contains(id),
                forall|j: int| 0 <= j < p ==> self.list@[j] != id,
            decreases self.list@.len() - p,
        {
            proof {
                let q = choose|q: int| 0 <= q < self.list@.len() && self.list@[q] == id;
                assert(q > p);
            }
            p += 1;
        }
        let ghost s = self.list@;
        let remove = self.list.remove(p);
        self.list.insert(0, remove);
        assert(moved_to_front(s, id, p as int));
        assert(self.list@ =~= seq![id].add(s.remove(p as int)));
    }
}


/// A write-back cache of `capacity` blocks in front of a block device; the
/// least recently used slot is reused when all are taken.
pub struct BlockCache<T: BlockDevice> {
    capacity: usize,
    device: T,
    bufs: Vec<Buf>,
    lru: LRU,
    map_list: BTreeMap<BlockId, usize>,
    buf_allocator: BufAllocator,
}

impl<T: BlockDevice> BlockCache<T> {
    /// The cache is consistent, except that `pend`, when given, names a block
    /// mapped to an empty slot that is about to be filled.
    spec fn inv_pending(&self, pend: Option<(BlockId, usize)>) -> bool {
        let bs = block_size(self.device.log2());
        let n = self.device.blocks().len();
        let m = self.map_list@;
        let cap = self.capacity as int;
        &&& self.device.inv()
        &&& self.capacity > 0
        &&& self.bufs@.len() == cap
        &&& self.lru.order().len() == cap
        &&& forall|k: int| 0 <= k < cap ==> (#[trigger] self.lru.order()[k]) < cap
        &&& forall|j: usize| j < cap ==> #[trigger] self.lru.order().contains(j)
        &&& self.buf_allocator.current_id <= cap
        &&& pend matches Some((b, i)) ==> i < self.buf_allocator.current_id
        &&& forall|j: int| 0 <= j < cap ==> (#[trigger] self.bufs@[j]).content@.len() == bs
        &&& forall|j: int|
            self.buf_allocator.current_id <= j < cap ==> (#[trigger] self.bufs@[j]).buf_status is Unused
        &&& forall|j: int|
            0 <= j < cap && (#[trigger] slot_block(self.bufs@[j].buf_status)) is Some ==> {
                let b = slot_block(self.bufs@[j].buf_status)->0;
                &&& b < n
                &&& m.contains_key(b)
                &&& m[b] == j
            }
        &&& forall|b: BlockId|
            #[trigger] m.contains_key(b) ==> {
                &&& m[b] < cap
                &&& (slot_block(self.bufs@[m[b] as int].buf_status) == Some(b) || (pend == Some(
                    (b, m[b]),
                ) && self.bufs@[m[b] as int].buf_status is Unused && b < n))
            }
        &&& forall|j: int|
            0 <= j < cap && (#[trigger] self.bufs@[j]).buf_status is Valid ==> self.bufs@[j].content@
                == self.device.blocks()[self.bufs@[j].buf_status->Valid_0 as int]
    }

    /// The cache is consistent.
    pub closed spec fn wf(&self) -> bool {
        self.inv_pending(None)
    }

    /// What the cache shows: cached copies where a block is cached, the device elsewhere.
    pub closed spec fn view_blocks(&self) -> Seq<Seq<u8>> {
        let m = self.map_list@;
        Seq::new(
            self.device.blocks().len(),
            |b: int|
                if m.contains_key(b as usize) && slot_block(
                    self.bufs@[m[b as usize] as int].buf_status,
                ) == Some(b as usize) {
                    self.bufs@[m[b as usize] as int].content@
                } else {
                    self.device.blocks()[b]
                },
        )
    }


    /// An empty cache of `size` zeroed slots in front of `dev`, usable as a
    /// block device when `size` is above zero.
    pub fn new(dev: T, size: usize) -> (r: Self)
        requires
            dev.inv(),
        ensures
            size > 0 ==> r.wf() && r.inv(),
            r.view_blocks() == dev.blocks(),
            r.blocks() == dev.blocks(),
            forall|i: int| 0 <= i < size ==> #[trigger] r.slot_holds(i) is None
                && r.slot_bytes(i) == Seq::new(block_size(dev.log2()), |k: int| 0u8),
            !r.checks_bounds(),
            r.device_blocks() == dev.blocks(),
            r.log2() == dev.log2(),
            r.spec_capacity() == size,
            r.recency() == Seq::new(size as nat, |i: int| i as usize),
            r.slots() == Map::<BlockId, usize>::empty(),
            r.handed_out() == 0,
    {
        proof {
            dev.lemma_inv();
        }
        let bs = block_size_of(dev.block_size_log2());
        let mut bufs: Vec<Buf> = Vec::new();
        let mut i: usize = 0;
        while i < size
            invariant
                i <= size,
                bufs@.len() == i,
                bs == block_size(dev.log2()),
                forall|j: int| 0 <= j < i ==> (#[trigger] bufs@[j]).content@ == Seq::new(bs as nat, |k: int| 0u8),
                forall|j: int| 0 <= j < i ==> (#[trigger] bufs@[j]).buf_status is Unused,
            decreases size - i,
        {
            let content = vec![0u8; bs];
            assert(content@ =~= Seq::new(bs as nat, |k: int| 0u8));
            bufs.push(Buf { content, buf_status: BufStatus::Unused });
            i += 1;
        }
        let lru = LRU::new(size);
        assert forall|j: usize| j < size implies #[trigger] lru.order().contains(j) by {
            assert(lru.order()[j as int] == j);
        }
        let r = BlockCache {
            capacity: size,
            device: dev,
            bufs,
            lru,
            map_list: BTreeMap::new(),
            buf_allocator: BufAllocator { current_id: 0 },
        };
        assert(r.view_blocks() =~= dev.blocks());
        r
    }

    /// Stores a dirty slot's bytes on the device; the slot then matches the device.
    fn write_back(device: &mut T, buf: &mut Buf) -> (r: DevResult<()>)
        requires
            old(device).inv(),
            old(buf).content@.len() == block_size(old(device).log2()),
            old(buf).buf_status matches BufStatus::Dirty(b) ==> old(device).checks_bounds() || b < old(
                device,
            ).blocks().len(),
        ensures
            final(device).inv(),
            final(device).log2() == old(device).log2(),
            final(device).checks_bounds() == old(device).checks_bounds(),
            final(buf).content == old(buf).content,
            match old(buf).buf_status {
                BufStatus::Dirty(b) => if b < old(device).blocks().len() {
                    r is Ok && final(buf).buf_status == BufStatus::Valid(b)
                        && final(device).blocks() == old(device).blocks().update(
                        b as int,
                        old(buf).content@,
                    )
                } else {
                    r is Err && final(buf).buf_status == old(buf).buf_status
                        && final(device).blocks() == old(device).blocks()
                },
                _ => r is Ok && final(buf).buf_status == old(buf).buf_status && final(device).blocks()
                    == old(device).blocks(),
            },
    {
        match buf.buf_status {
            BufStatus::Dirty(block_id) => {
                let r = device.write_at(block_id, buf.content.as_slice());
                assert(buf.content@.take(buf.content@.len() as int) =~= buf.content@);
                if r.is_err() {
                    return r;
                }
                buf.buf_status = BufStatus::Valid(block_id);
            },
            _ => {},
        }
        Ok(())
    }


    /// An empty slot for a block not in the cache: a fresh one while some are
    /// left, else the least recently used one, written back and emptied.
    fn _get_unused(&mut self) -> (i: usize)
        requires
            old(self).wf(),
        ensures
            final(self).wf(),
            final(self).view_blocks() == old(self).view_blocks(),
            final(self).device.log2() == old(self).device.log2(),
            final(self).device.checks_bounds() == old(self).device.checks_bounds(),
            final(self).lru == old(self).lru,
            final(self).device.blocks().len() == old(self).device.blocks().len(),
            i < final(self).capacity,
            final(self).bufs@[i as int].buf_status is Unused,
            i < final(self).buf_allocator.current_id,
            final(self).capacity == old(self).capacity,
            final(self).map_list@.dom().subset_of(old(self).map_list@.dom()),
            i == old(self).next_slot(),
            final(self).map_list@ == without_slot(old(self).map_list@, i),
            match old(self).evicted_dirty() {
                Some(d) => final(self).device.blocks() == old(self).device.blocks().update(
                    d as int,
                    old(self).view_blocks()[d as int],
                ),
                None => final(self).device.blocks() == old(self).device.blocks(),
            },
            final(self).buf_allocator.current_id == if old(self).buf_allocator.current_id < old(
                self,
            ).capacity {
                old(self).buf_allocator.current_id + 1
            } else {
                old(self).buf_allocator.current_id as int
            },
    {
        if let Some(id) = self.buf_allocator.allocate(self.capacity) {
            proof {
                let m = self.map_list@;
                assert forall|b: BlockId| #[trigger] m.contains_key(b) implies m[b] != id by {
                    let _ = slot_block(self.bufs@[m[b] as int].buf_status);
                }
                assert(m =~= without_slot(m, id));
            }
            return id;
        }
        let id = self.lru.tail();
        proof {
            assert(self.lru.order()[self.lru.order().len() - 1] < self.capacity);
            self.device.lemma_inv();
            let _ = slot_block(self.bufs@[id as int].buf_status);
        }
        let ghost pre = *self;
        let r = Self::write_back(&mut self.device, &mut self.bufs[id]);
        proof {
            self.lemma_write_back_keeps(pre, id as int);
            if let BufStatus::Dirty(b) = pre.bufs@[id as int].buf_status {
                assert(pre.view_blocks()[b as int] == pre.bufs@[id as int].content@);
            }
        }
        let ghost mid = *self;
        match self.bufs[id].buf_status {
            BufStatus::Valid(block_id) => {
                self.map_list.remove(&block_id);
            },
            BufStatus::Dirty(block_id) => {
                self.map_list.remove(&block_id);
            },
            _ => {},
        }
        self.bufs[id].buf_status = BufStatus::Unused;
        proof {
            self.lemma_evict_keeps(mid, id as int);
            let m0 = old(self).map_list@;
            let _ = slot_block(old(self).bufs@[id as int].buf_status);
            assert forall|b: BlockId| #[trigger] m0.contains_key(b) && m0[b] == id implies slot_block(
                old(self).bufs@[id as int].buf_status,
            ) == Some(b) by {
                let _ = slot_block(old(self).bufs@[m0[b] as int].buf_status);
            }
            assert(self.map_list@ =~= without_slot(m0, id));
        }
        id
    }

    /// Writing slot `id` back keeps the cache consistent and what it shows.
    proof fn lemma_write_back_keeps(&self, pre: Self, id: int)
        requires
            pre.wf(),
            0 <= id < pre.capacity,
            self.capacity == pre.capacity,
            self.lru == pre.lru,
            self.map_list == pre.map_list,
            self.buf_allocator == pre.buf_allocator,
            self.device.inv(),
            self.device.log2() == pre.device.log2(),
            self.device.checks_bounds() == pre.device.checks_bounds(),
            self.bufs@ == pre.bufs@.update(id, self.bufs@[id]),
            self.bufs@[id].content == pre.bufs@[id].content,
            match pre.bufs@[id].buf_status {
                BufStatus::Dirty(b) => self.bufs@[id].buf_status == BufStatus::Valid(b)
                    && self.device.blocks() == pre.device.blocks().update(
                    b as int,
                    pre.bufs@[id].content@,
                ),
                _ => self.bufs@[id].buf_status == pre.bufs@[id].buf_status
                    && self.device.blocks() == pre.device.blocks(),
            },
        ensures
            self.wf(),
            self.view_blocks() == pre.view_blocks(),
            self.bufs@[id].buf_status is Unused || self.bufs@[id].buf_status is Valid,
    {
        let m = self.map_list@;
        assert(slot_block(self.bufs@[id].buf_status) == slot_block(pre.bufs@[id].buf_status));
        assert forall|j: int| 0 <= j < self.capacity implies slot_block(
            #[trigger] self.bufs@[j].buf_status,
        ) == slot_block(pre.bufs@[j].buf_status) by {}
        if let BufStatus::Dirty(b) = pre.bufs@[id].buf_status {
            let _ = slot_block(pre.bufs@[id].buf_status);
            pre.device.lemma_inv();
            assert(pre.view_blocks()[b as int] == pre.bufs@[id].content@);
            assert forall|j: int|
                0 <= j < self.capacity && (#[trigger] self.bufs@[j]).buf_status is Valid implies self.bufs@[j].content@
                == self.device.blocks()[self.bufs@[j].buf_status->Valid_0 as int] by {
                if j != id {
                    let _ = slot_block(pre.bufs@[j].buf_status);
                    assert(pre.bufs@[j] == self.bufs@[j]);
                }
            }
            assert forall|k: int| 0 <= k < self.view_blocks().len() implies #[trigger] self.view_blocks()[k]
                == pre.view_blocks()[k] by {
                if m.contains_key(k as usize) {
                    let _ = slot_block(self.bufs@[m[k as usize] as int].buf_status);
                }
            }
            assert(self.view_blocks() =~= pre.view_blocks());
        } else {
            assert(self.bufs@ =~= pre.bufs@);
            assert(self.view_blocks() =~= pre.view_blocks());
        }
    }

    /// Dropping slot `id` from the map and emptying it keeps the cache
    /// consistent and what it shows, once the slot matches the device.
    proof fn lemma_evict_keeps(&self, pre: Self, id: int)
        requires
            pre.wf(),
            0 <= id < pre.capacity,
            pre.bufs@[id].buf_status is Unused || pre.bufs@[id].buf_status is Valid,
            self.capacity == pre.capacity,
            self.lru == pre.lru,
            self.buf_allocator == pre.buf_allocator,
            self.device == pre.device,
            self.bufs@ == pre.bufs@.update(
                id,
                Buf { content: pre.bufs@[id].content, buf_status: BufStatus::Unused },
            ),
            match slot_block(pre.bufs@[id].buf_status) {
                Some(b) => self.map_list@ == pre.map_list@.remove(b),
                None => self.map_list@ == pre.map_list@,
            },
        ensures
            self.wf(),
            self.view_blocks() == pre.view_blocks(),
    {
        let m0 = pre.map_list@;
        let m = self.map_list@;
        pre.device.lemma_inv();
        let _ = slot_block(pre.bufs@[id].buf_status);
        assert forall|j: int|
            0 <= j < self.capacity && (#[trigger] slot_block(self.bufs@[j].buf_status)) is Some implies {
                let b = slot_block(self.bufs@[j].buf_status)->0;
                &&& b < self.device.blocks().len()
                &&& m.contains_key(b)
                &&& m[b] == j
            } by {
            let _ = slot_block(pre.bufs@[j].buf_status);
        }
        assert forall|b: BlockId|
            #[trigger] m.contains_key(b) implies {
                &&& m[b] < self.capacity
                &&& slot_block(self.bufs@[m[b] as int].buf_status) == Some(b)
            } by {
            assert(m0.contains_key(b));
            let _ = slot_block(pre.bufs@[m0[b] as int].buf_status);
        }
        assert forall|j: int|
            0 <= j < self.capacity && (#[trigger] self.bufs@[j]).buf_status is Valid implies self.bufs@[j].content@
            == self.device.blocks()[self.bufs@[j].buf_status->Valid_0 as int] by {
            assert(pre.bufs@[j] == self.bufs@[j]);
        }
        assert forall|k: int| 0 <= k < self.view_blocks().len() implies #[trigger] self.view_blocks()[k]
            == pre.view_blocks()[k] by {
            let kk = k as usize;
            if m0.contains_key(kk) {
                let j = m0[kk] as int;
                let _ = slot_block(pre.bufs@[j].buf_status);
                if j == id {
                    assert(pre.bufs@[id].buf_status == BufStatus::Valid(kk));
                    assert(pre.bufs@[id].content@ == pre.device.blocks()[k]);
                    assert(!m.contains_key(kk));
                } else {
                    assert(m.contains_key(kk));
                    assert(self.bufs@[j] == pre.bufs@[j]);
                }
            } else {
                assert(!m.contains_key(kk));
            }
        }
        assert(self.view_blocks() =~= pre.view_blocks());
    }

    /// The slot of `block_id`: the one that holds it, else an empty one.
    fn _get_buf(&mut self, block_id: BlockId) -> (i: usize)
        requires
            old(self).wf(),
        ensures
            final(self).wf(),
            final(self).view_blocks() == old(self).view_blocks(),
            final(self).device.log2() == old(self).device.log2(),
            final(self).device.checks_bounds() == old(self).device.checks_bounds(),
            final(self).lru == old(self).lru,
            final(self).capacity == old(self).capacity,
            final(self).device.blocks().len() == old(self).device.blocks().len(),
            i < final(self).capacity,
            i < final(self).buf_allocator.current_id,
            (final(self).map_list@.contains_key(block_id) && final(self).map_list@[block_id] == i
                && slot_block(final(self).bufs@[i as int].buf_status) == Some(block_id)) || (
            !final(self).map_list@.contains_key(block_id)
                && final(self).bufs@[i as int].buf_status is Unused),
            old(self).map_list@.contains_key(block_id) ==> i == old(self).map_list@[block_id]
                && *final(self) == *old(self),
            !old(self).map_list@.contains_key(block_id) ==> match old(self).evicted_dirty() {
                Some(d) => final(self).device.blocks() == old(self).device.blocks().update(
                    d as int,
                    old(self).view_blocks()[d as int],
                ),
                None => final(self).device.blocks() == old(self).device.blocks(),
            },
            !old(self).map_list@.contains_key(block_id) ==> i == old(self).next_slot()
                && final(self).map_list@ == without_slot(old(self).map_list@, i)
                && final(self).buf_allocator.current_id == if old(self).buf_allocator.current_id
                < old(self).capacity {
                old(self).buf_allocator.current_id + 1
            } else {
                old(self).buf_allocator.current_id as int
            },
    {
        if let Some(id) = self.map_list.get(&block_id) {
            return *id;
        }
        self._get_unused()
    }

    /// The slot of `block_id`, marked as the most recently used and mapped to
    /// the block; it either holds the block already or is empty, to be filled.
    fn get_buf(&mut self, block_id: BlockId) -> (i: usize)
        requires
            old(self).wf(),
            block_id < old(self).device.blocks().len(),
        ensures
            final(self).inv_pending(Some((block_id, i))),
            final(self).view_blocks() == old(self).view_blocks(),
            final(self).device.log2() == old(self).device.log2(),
            final(self).device.checks_bounds() == old(self).device.checks_bounds(),
            final(self).capacity == old(self).capacity,
            final(self).device.blocks().len() == old(self).device.blocks().len(),
            i < final(self).capacity,
            final(self).map_list@.contains_key(block_id),
            final(self).map_list@[block_id] == i,
            slot_block(final(self).bufs@[i as int].buf_status) == Some(block_id)
                || final(self).bufs@[i as int].buf_status is Unused,
            final(self).accessed(*old(self), block_id),
            final(self).device_after_access(*old(self), block_id),
            old(self).map_list@.contains_key(block_id) ==> final(self).bufs@[i as int] == old(self).bufs@[i as int],
            !old(self).map_list@.contains_key(block_id) ==> final(self).bufs@[i as int].buf_status is Unused,
    {
        let i = self._get_buf(block_id);
        let ghost pre = *self;
        self.lru.visit(i);
        proof {
            let p = choose|p: int|
                moved_to_front(pre.lru.order(), i, p) && self.lru.order() == seq![i].add(
                    pre.lru.order().remove(p),
                );
            lemma_moved_keeps_slots(pre.lru.order(), self.lru.order(), i, p, self.capacity as int);
        }
        self.map_list.insert(block_id, i);
        proof {
            self.lemma_map_slot(pre, block_id, i);
            if old(self).map_list@.contains_key(block_id) {
                assert(self.map_list@ =~= old(self).map_list@);
            }
            assert(moved_to_front(old(self).recency(), i, choose|p: int|
                moved_to_front(pre.lru.order(), i, p) && self.lru.order() == seq![i].add(
                    pre.lru.order().remove(p),
                )));
        }
        i
    }

    /// Mapping `block_id` to slot `i` (which holds it or is empty) leaves a
    /// cache that is consistent but for that pending slot, and shows the same.
    proof fn lemma_map_slot(&self, pre: Self, block_id: BlockId, i: usize)
        requires
            pre.wf(),
            block_id < pre.device.blocks().len(),
            i < pre.capacity,
            i < pre.buf_allocator.current_id,
            (pre.map_list@.contains_key(block_id) && pre.map_list@[block_id] == i && slot_block(
                pre.bufs@[i as int].buf_status,
            ) == Some(block_id)) || (!pre.map_list@.contains_key(block_id)
                && pre.bufs@[i as int].buf_status is Unused),
            self.capacity == pre.capacity,
            self.device == pre.device,
            self.bufs == pre.bufs,
            self.buf_allocator == pre.buf_allocator,
            self.lru.order().len() == pre.capacity,
            forall|k: int| 0 <= k < pre.capacity ==> (#[trigger] self.lru.order()[k]) < pre.capacity,
            forall|j: usize| j < pre.capacity ==> #[trigger] self.lru.order().contains(j),
            self.map_list@ == pre.map_list@.insert(block_id, i),
        ensures
            self.inv_pending(Some((block_id, i))),
            self.view_blocks() == pre.view_blocks(),
    {
        let m0 = pre.map_list@;
        let m = self.map_list@;
        pre.device.lemma_inv();
        let _ = slot_block(pre.bufs@[i as int].buf_status);
        assert forall|j: int|
            0 <= j < self.capacity && (#[trigger] slot_block(self.bufs@[j].buf_status)) is Some implies {
                let b = slot_block(self.bufs@[j].buf_status)->0;
                &&& b < self.device.blocks().len()
                &&& m.contains_key(b)
                &&& m[b] == j
            } by {
            let b = slot_block(self.bufs@[j].buf_status)->0;
            if b == block_id {
                // the block was cached already, in slot i
                assert(m0.contains_key(b));
            }
        }
        assert forall|b: BlockId|
            #[trigger] m.contains_key(b) implies {
                &&& m[b] < self.capacity
                &&& (slot_block(self.bufs@[m[b] as int].buf_status) == Some(b) || (Some((block_id, i))
                    == Some((b, m[b])) && self.bufs@[m[b] as int].buf_status is Unused && b
                    < self.device.blocks().len()))
            } by {
            if b != block_id {
                assert(m0.contains_key(b));
            }
        }
        assert forall|k: int| 0 <= k < self.view_blocks().len() implies #[trigger] self.view_blocks()[k]
            == pre.view_blocks()[k] by {
            let kk = k as usize;
            if kk == block_id {
                if m0.contains_key(kk) {
                } else {
                    assert(!(slot_block(self.bufs@[i as int].buf_status) == Some(kk)));
                }
            }
        }
        assert(self.view_blocks() =~= pre.view_blocks());
    }

    /// Filling the slot of `b` with the device's copy of `b` (`Valid`) or with
    /// new bytes (`Dirty`) makes the cache consistent again and shows `c` at `b`.
    proof fn lemma_fill(&self, pre: Self, b: BlockId, i: usize)
        requires
            pre.inv_pending(Some((b, i))),
            pre.map_list@.contains_key(b),
            pre.map_list@[b] == i,
            slot_block(pre.bufs@[i as int].buf_status) == Some(b) || pre.bufs@[i as int].buf_status is Unused,
            self.capacity == pre.capacity,
            self.device.inv(),
            self.device.blocks() == pre.device.blocks(),
            self.device.log2() == pre.device.log2(),
            self.map_list == pre.map_list,
            self.lru == pre.lru,
            self.buf_allocator == pre.buf_allocator,
            self.bufs@ == pre.bufs@.update(i as int, self.bufs@[i as int]),
            self.bufs@[i as int].content@.len() == block_size(pre.device.log2()),
            self.bufs@[i as int].buf_status == BufStatus::Dirty(b) || (self.bufs@[i as int].buf_status
                == BufStatus::Valid(b) && self.bufs@[i as int].content@ == pre.device.blocks()[b as int]),
        ensures
            self.wf(),
            self.view_blocks() == pre.view_blocks().update(b as int, self.bufs@[i as int].content@),
            pre.view_blocks()[b as int] == if pre.bufs@[i as int].buf_status is Unused {
                pre.device.blocks()[b as int]
            } else {
                pre.bufs@[i as int].content@
            },
    {
        let m = self.map_list@;
        pre.device.lemma_inv();
        let _ = slot_block(pre.bufs@[i as int].buf_status);
        let _ = slot_block(self.bufs@[i as int].buf_status);
        assert forall|j: int|
            0 <= j < self.capacity && (#[trigger] slot_block(self.bufs@[j].buf_status)) is Some implies {
                let bb = slot_block(self.bufs@[j].buf_status)->0;
                &&& bb < self.device.blocks().len()
                &&& m.contains_key(bb)
                &&& m[bb] == j
            } by {
            if j != i {
                assert(self.bufs@[j] == pre.bufs@[j]);
            }
        }
        assert forall|bb: BlockId|
            #[trigger] m.contains_key(bb) implies {
                &&& m[bb] < self.capacity
                &&& slot_block(self.bufs@[m[bb] as int].buf_status) == Some(bb)
            } by {
            if m[bb] != i {
                assert(self.bufs@[m[bb] as int] == pre.bufs@[m[bb] as int]);
            }
        }
        assert forall|j: int|
            0 <= j < self.capacity && (#[trigger] self.bufs@[j]).buf_status is Valid implies self.bufs@[j].content@
            == self.device.blocks()[self.bufs@[j].buf_status->Valid_0 as int] by {
            if j != i {
                assert(self.bufs@[j] == pre.bufs@[j]);
            }
        }
        assert(self.view_blocks() =~= pre.view_blocks().update(b as int, self.bufs@[i as int].content@));
    }

    /// The blocks as the device below the cache holds them.
    pub closed spec fn device_blocks(&self) -> Seq<Seq<u8>> {
        self.device.blocks()
    }

    /// The number of buffer slots.
    pub closed spec fn spec_capacity(&self) -> nat {
        self.capacity as nat
    }

    /// The slots from most to least recently used.
    pub closed spec fn recency(&self) -> Seq<usize> {
        self.lru.order()
    }

    /// The slot that holds each cached block.
    pub closed spec fn slots(&self) -> Map<BlockId, usize> {
        self.map_list@
    }

    /// How many slots have been taken into use; the others are still empty.
    pub closed spec fn handed_out(&self) -> nat {
        self.buf_allocator.current_id as nat
    }

    /// Block `b` is cached with bytes not yet stored on the device.
    pub open spec fn is_dirty(&self, b: BlockId) -> bool {
        self.slots().contains_key(b) && self.slot_holds(self.slots()[b] as int) == Some((b, true))
    }

    /// The block that slot `i` holds, if any, and whether it is dirty.
    pub closed spec fn slot_holds(&self, i: int) -> Option<(BlockId, bool)> {
        match self.bufs@[i].buf_status {
            BufStatus::Unused => None,
            BufStatus::Valid(b) => Some((b, false)),
            BufStatus::Dirty(b) => Some((b, true)),
        }
    }

    /// The bytes that slot `i` holds.
    pub closed spec fn slot_bytes(&self, i: int) -> Seq<u8> {
        self.bufs@[i].content@
    }

    /// The block that taking a slot for a block not in the cache stores on
    /// the device: the dirty block of the least recently used slot, once
    /// every slot is in use.
    pub open spec fn evicted_dirty(&self) -> Option<BlockId> {
        if self.handed_out() >= self.spec_capacity() {
            match self.slot_holds(self.next_slot() as int) {
                Some((d, true)) => Some(d),
                _ => None,
            }
        } else {
            None
        }
    }

    /// The device below after an access to block `b` from the cache `pre`:
    /// unchanged, but for the block of an evicted dirty slot, which takes
    /// the bytes the cache showed for it.
    pub open spec fn device_after_access(&self, pre: Self, b: BlockId) -> bool {
        let ev = if pre.slots().contains_key(b) {
            None
        } else {
            pre.evicted_dirty()
        };
        match ev {
            Some(d) => self.device_blocks() == pre.device_blocks().update(d as int, pre.blocks()[d as int]),
            None => self.device_blocks() == pre.device_blocks(),
        }
    }

    /// The slot that a block not in the cache is given: the next one never
    /// used while there is one, else the least recently used.
    pub open spec fn next_slot(&self) -> usize {
        if self.handed_out() < self.spec_capacity() {
            self.handed_out() as usize
        } else {
            self.recency().last()
        }
    }

    /// The bookkeeping of an access to block `b`, from the cache `pre`: the
    /// block's slot (the one it had, else `next_slot`, whose old block leaves
    /// the cache) now holds `b` and has become the most recently used.
    pub open spec fn accessed(&self, pre: Self, b: BlockId) -> bool {
        let hit = pre.slots().contains_key(b);
        let i = if hit { pre.slots()[b] } else { pre.next_slot() };
        let slots = if hit { pre.slots() } else { without_slot(pre.slots(), i).insert(b, i) };
        let used: int = if !hit && pre.handed_out() < pre.spec_capacity() {
            (pre.handed_out() + 1) as int
        } else {
            pre.handed_out() as int
        };
        &&& self.spec_capacity() == pre.spec_capacity()
        &&& self.slots() == slots
        &&& self.handed_out() == used
        &&& moved_first(pre.recency(), self.recency(), i)
    }
}


impl<T: BlockDevice> BlockDevice for BlockCache<T> {
    closed spec fn log2(&self) -> nat {
        self.device.log2()
    }

    closed spec fn blocks(&self) -> Seq<Seq<u8>> {
        self.view_blocks()
    }

    closed spec fn inv(&self) -> bool {
        self.wf()
    }

    /// Blocks past the end of the device must not be asked of the cache.
    closed spec fn checks_bounds(&self) -> bool {
        false
    }

    /// `sync` always succeeds.
    open spec fn sync_may_return(&self, r: DevResult<()>) -> bool {
        r is Ok
    }

    proof fn lemma_inv(&self) {
        self.device.lemma_inv();
        assert forall|i: int|
            0 <= i < self.blocks().len() implies (#[trigger] self.blocks()[i]).len() == block_size(
            self.log2(),
        ) by {
            let m = self.map_list@;
            if m.contains_key(i as usize) {
                assert(self.bufs@[m[i as usize] as int].content@.len() == block_size(self.log2()));
            }
        }
    }

    fn block_size_log2(&self) -> (r: u8) {
        self.device.block_size_log2()
    }

    /// Besides what the cache shows, the device below changes only where a
    /// dirty slot is evicted to make room for the block.
    fn read_at(&mut self, block_id: BlockId, dst_buf: &mut [u8]) -> (r: DevResult<()>)
        ensures
            final(self).accessed(*old(self), block_id),
            final(self).is_dirty(block_id) == old(self).is_dirty(block_id),
            final(self).device_after_access(*old(self), block_id),
    {
        let ghost old_view = self.view_blocks();
        let i = self.get_buf(block_id);
        proof {
            self.device.lemma_inv();
        }
        let ghost pre = *self;
        proof {
            if old(self).map_list@.contains_key(block_id) {
                let _ = slot_block(old(self).bufs@[i as int].buf_status);
                assert(pre.bufs@[i as int].buf_status !is Unused);
            }
        }
        if let BufStatus::Unused = self.bufs[i].buf_status {
            self.bufs[i].buf_status = BufStatus::Valid(block_id);
            let res = self.device.read_at(block_id, self.bufs[i].content.as_mut_slice());
            if res.is_err() {
                return res;
            }
            assert(self.bufs@[i as int].content@ =~= pre.device.blocks()[block_id as int]);
        }
        proof {
            assert(self.bufs@ =~= pre.bufs@.update(i as int, self.bufs@[i as int]));
            self.lemma_fill(pre, block_id, i);
            assert(self.view_blocks() =~= old_view);
            if old(self).map_list@.contains_key(block_id) {
                assert(self.bufs@[i as int] == old(self).bufs@[i as int]);
            }
        }
        let len = block_size_of(self.device.block_size_log2());
        let mut k: usize = 0;
        while k < len
            invariant
                k <= len,
                len == self.bufs@[i as int].content@.len(),
                i < self.bufs@.len(),
                dst_buf@.len() == old(dst_buf)@.len(),
                len <= dst_buf@.len(),
                forall|j: int| 0 <= j < k ==> #[trigger] dst_buf@[j] == self.bufs@[i as int].content@[j],
                forall|j: int| k <= j < dst_buf@.len() ==> #[trigger] dst_buf@[j] == old(dst_buf)@[j],
            decreases len - k,
        {
            dst_buf[k] = self.bufs[i].content[k];
            k += 1;
        }
        assert(dst_buf@ =~= old_view[block_id as int] + old(dst_buf)@.skip(len as int));
        proof {
            if old(self).map_list@.contains_key(block_id) {
                assert(self.bufs@[i as int] == old(self).bufs@[i as int]);
                assert(self.map_list@ == old(self).map_list@);
            } else {
                assert(self.bufs@[i as int].buf_status == BufStatus::Valid(block_id));
                assert(self.map_list@[block_id] == i);
            }
        }
        Ok(())
    }

    /// Besides what the cache shows, the device below changes only where a
    /// dirty slot is evicted to make room for the block.
    fn write_at(&mut self, block_id: BlockId, from_buf: &[u8]) -> (r: DevResult<()>)
        ensures
            final(self).accessed(*old(self), block_id),
            final(self).is_dirty(block_id),
            final(self).device_after_access(*old(self), block_id),
    {
        let ghost old_view = self.view_blocks();
        let i = self.get_buf(block_id);
        proof {
            self.device.lemma_inv();
        }
        let len = block_size_of(self.device.block_size_log2());
        let mut content: Vec<u8> = Vec::new();
        let mut k: usize = 0;
        while k < len
            invariant
                k <= len,
                len <= from_buf@.len(),
                content@ == from_buf@.take(k as int),
            decreases len - k,
        {
            content.push(from_buf[k]);
            k += 1;
            assert(content@ =~= from_buf@.take(k as int));
        }
        let ghost pre = *self;
        self.bufs[i].buf_status = BufStatus::Dirty(block_id);
        self.bufs[i].content = content;
        proof {
            assert(self.bufs@ =~= pre.bufs@.update(i as int, self.bufs@[i as int]));
            self.lemma_fill(pre, block_id, i);
            assert(self.view_blocks() =~= old_view.update(block_id as int, from_buf@.take(len as int)));
        }
        Ok(())
    }

    /// Stores every dirty slot on the device, which then holds what the
    /// cache shows; no block is left dirty.
    fn sync(&mut self) -> (r: DevResult<()>)
        ensures
            final(self).device_blocks() == final(self).blocks(),
            forall|b: BlockId| !(#[trigger] final(self).is_dirty(b)),
    {
        let ghost old_view = self.view_blocks();
        let ghost log2 = self.device.log2();
        let ghost cb = self.device.checks_bounds();
        let mut i: usize = 0;
        while i < self.capacity
            invariant
                self.wf(),
                self.view_blocks() == old_view,
                self.device.log2() == log2,
                self.device.checks_bounds() == cb,
                i <= self.capacity,
                forall|j: int| 0 <= j < i ==> (#[trigger] self.bufs@[j]).buf_status !is Dirty,
            decreases self.capacity - i,
        {
            proof {
                self.device.lemma_inv();
                let _ = slot_block(self.bufs@[i as int].buf_status);
            }
            let ghost pre = *self;
            let r = Self::write_back(&mut self.device, &mut self.bufs[i]);
            proof {
                self.lemma_write_back_keeps(pre, i as int);
                assert forall|j: int| 0 <= j < i + 1 implies (#[trigger] self.bufs@[j]).buf_status !is Dirty by {
                    if j < i {
                        assert(self.bufs@[j] == pre.bufs@[j]);
                    }
                }
            }
            i += 1;
        }
        proof {
            let m = self.map_list@;
            assert forall|k: int| 0 <= k < self.device.blocks().len() implies #[trigger] self.view_blocks()[k]
                == self.device.blocks()[k] by {
                self.device.lemma_inv();
                let kk = k as usize;
                if m.contains_key(kk) {
                    let j = m[kk] as int;
                    let _ = slot_block(self.bufs@[j].buf_status);
                }
            }
            assert(self.device.blocks() =~= self.view_blocks());
            assert forall|b: BlockId| !(#[trigger] self.is_dirty(b)) by {
                if m.contains_key(b) {
                    assert(self.bufs@[m[b] as int].buf_status !is Dirty);
                }
            }
        }
        Ok(())
    }
}

} // verus!
