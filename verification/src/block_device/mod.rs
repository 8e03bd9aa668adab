//! Block devices, their byte-addressed view, a memory device and a block cache.
use vstd::prelude::*;
use crate::util::{block_size, block_size_of, BlockIter, lemma_in_block, lemma_block_of};
use crate::vfs::Timespec;

pub mod block_cache;
pub mod mem;

verus! {

/// Index of a block on a device.
pub type BlockId = usize;

/// The error type for device.
#[derive(Debug, PartialEq, Eq, Structural)]
pub struct DevError;

/// A specialized `Result` type for device.
pub type DevResult<T> = core::result::Result<T, DevError>;

/// A current time provider
pub trait TimeProvider {
    fn current_time(&self) -> Timespec;
}

/// The bytes of a device made of `blocks`, each `bs` bytes long, one after the other.
pub open spec fn flatten_blocks(blocks: Seq<Seq<u8>>, bs: nat) -> Seq<u8> {
    Seq::new(blocks.len() * bs, |i: int| blocks[i / (bs as int)][i % (bs as int)])
}

/// How many bytes a transfer of `len` bytes at `offset` moves on a device of `size` bytes:
/// the transfer stops at the end of the device.
pub open spec fn io_len(size: int, offset: int, len: int) -> int {
    if offset >= size {
        0
    } else if offset + len <= size {
        len
    } else {
        size - offset
    }
}

/// The buffer after reading it from `content` at `offset`: the bytes that the
/// device holds replace the front of the buffer, the rest stays.
pub open spec fn read_result(content: Seq<u8>, offset: int, buf: Seq<u8>) -> Seq<u8> {
    let n = io_len(content.len() as int, offset, buf.len() as int);
    Seq::new(buf.len(), |i: int| if i < n { content[offset + i] } else { buf[i] })
}

/// The device bytes after writing `data` at `offset`: the bytes that fit on the
/// device are replaced, the rest of `data` is dropped.
pub open spec fn write_result(content: Seq<u8>, offset: int, data: Seq<u8>) -> Seq<u8> {
    let n = io_len(content.len() as int, offset, data.len() as int);
    Seq::new(
        content.len(),
        |i: int| if offset <= i < offset + n { data[i - offset] } else { content[i] },
    )
}

/// Byte `b * bs + k` of the flattened device is byte `k` of block `b`.
pub proof fn lemma_flatten_index(blocks: Seq<Seq<u8>>, bs: nat, b: int, k: int)
    requires
        bs > 0,
        0 <= b < blocks.len(),
        0 <= k < bs,
    ensures
        b * bs + k < blocks.len() * bs,
        flatten_blocks(blocks, bs)[b * bs + k] == blocks[b][k],
{
    lemma_in_block(b, k, bs as int);
    assert(b * bs + k < blocks.len() * bs) by (nonlinear_arith)
        requires b < blocks.len(), 0 <= k < bs;
}

/// Replacing block `b` changes exactly the bytes `b * bs .. (b + 1) * bs`.
pub proof fn lemma_flatten_update(blocks: Seq<Seq<u8>>, bs: nat, b: int, blk: Seq<u8>)
    requires
        bs > 0,
        0 <= b < blocks.len(),
        blk.len() == bs,
    ensures
        ({
            let old_bytes = flatten_blocks(blocks, bs);
            let new_bytes = flatten_blocks(blocks.update(b, blk), bs);
            &&& new_bytes.len() == old_bytes.len()
            &&& forall|i: int| 0 <= i < new_bytes.len() ==> #[trigger] new_bytes[i] == if b * bs <= i
                < b * bs + bs {
                blk[i - b * bs]
            } else {
                old_bytes[i]
            }
        }),
{
    let old_bytes = flatten_blocks(blocks, bs);
    let new_bytes = flatten_blocks(blocks.update(b, blk), bs);
    assert forall|i: int| 0 <= i < new_bytes.len() implies #[trigger] new_bytes[i] == if b * bs
        <= i < b * bs + bs {
        blk[i - b * bs]
    } else {
        old_bytes[i]
    } by {
        lemma_block_of(i, bs as int);
        let q = i / (bs as int);
        assert(q < blocks.len()) by {
            if q >= blocks.len() {
                assert(blocks.len() * bs <= q * bs) by (nonlinear_arith)
                    requires blocks.len() <= q;
            }
        }
        if b * bs <= i < b * bs + bs {
            lemma_in_block(b, i - b * bs, bs as int);
        } else {
            assert(q != b);
        }
    }
}

/// Reading back the bytes just written, inside the device, gives what was written.
pub proof fn lemma_read_after_write(content: Seq<u8>, offset: int, data: Seq<u8>, buf: Seq<u8>)
    requires
        0 <= offset,
        offset + data.len() <= content.len(),
        buf.len() == data.len(),
    ensures
        read_result(write_result(content, offset, data), offset, buf) == data,
{
    let w = write_result(content, offset, data);
    assert(read_result(w, offset, buf) =~= data);
}

/// Writing leaves the bytes outside the written interval as they were.
pub proof fn lemma_write_keeps_rest(content: Seq<u8>, offset: int, data: Seq<u8>, i: int)
    requires
        0 <= i < content.len(),
        i < offset || offset + data.len() <= i,
    ensures
        write_result(content, offset, data)[i] == content[i],
{
}


/// On a block device, reading a block just written gives the bytes written
/// (the first block-size bytes of the buffer handed to the write).
pub proof fn lemma_block_read_after_write(blocks: Seq<Seq<u8>>, b: int, data: Seq<u8>, bs: nat, buf: Seq<u8>)
    requires
        0 <= b < blocks.len(),
        data.len() >= bs,
        buf.len() >= bs,
    ensures
        blocks.update(b, data.take(bs as int))[b] + buf.skip(bs as int)
            == data.take(bs as int) + buf.skip(bs as int),
{
}

/// Device which can only R/W in blocks
pub trait BlockDevice: Sized {
    /// log2 of the block size.
    spec fn log2(&self) -> nat;

    /// The contents of the device, block by block.
    spec fn blocks(&self) -> Seq<Seq<u8>>;

    /// The device is in a usable state.
    spec fn inv(&self) -> bool;

    /// The device answers a request for a block past its end with an error,
    /// so that such a request may be made.
    spec fn checks_bounds(&self) -> bool;

    /// `sync` on a device in this state may answer `r`.
    spec fn sync_may_return(&self, r: DevResult<()>) -> bool;

    /// A usable device has a block size that fits the word width, and blocks of that size.
    proof fn lemma_inv(&self)
        requires
            self.inv(),
        ensures
            self.log2() < usize::BITS,
            self.blocks().len() <= usize::MAX,
            forall|i: int|
                0 <= i < self.blocks().len() ==> (#[trigger] self.blocks()[i]).len()
                    == block_size(self.log2()),
    ;

    /// log2 of the block size.
    fn block_size_log2(&self) -> (r: u8)
        requires
            self.inv(),
        ensures
            r == self.log2(),
    ;

    /// Reads block `block_id` into the front of `buf`.
    fn read_at(&mut self, block_id: BlockId, buf: &mut [u8]) -> (r: DevResult<()>)
        requires
            old(self).inv(),
            old(buf)@.len() >= block_size(old(self).log2()),
            old(self).checks_bounds() || block_id < old(self).blocks().len(),
        ensures
            final(self).inv(),
            final(self).log2() == old(self).log2(),
            final(self).blocks() == old(self).blocks(),
            final(self).checks_bounds() == old(self).checks_bounds(),
            block_id < old(self).blocks().len() ==> r is Ok && final(buf)@ == old(
                self,
            ).blocks()[block_id as int] + old(buf)@.skip(block_size(old(self).log2()) as int),
            block_id >= old(self).blocks().len() ==> r is Err && final(buf)@ == old(buf)@,
    ;

    /// Writes the front of `buf` to block `block_id`.
    fn write_at(&mut self, block_id: BlockId, buf: &[u8]) -> (r: DevResult<()>)
        requires
            old(self).inv(),
            buf@.len() >= block_size(old(self).log2()),
            old(self).checks_bounds() || block_id < old(self).blocks().len(),
        ensures
            final(self).inv(),
            final(self).log2() == old(self).log2(),
            final(self).checks_bounds() == old(self).checks_bounds(),
            block_id < old(self).blocks().len() ==> r is Ok && final(self).blocks() == old(
                self,
            ).blocks().update(block_id as int, buf@.take(block_size(old(self).log2()) as int)),
            block_id >= old(self).blocks().len() ==> r is Err && final(self).blocks() == old(
                self,
            ).blocks(),
    ;

    /// Makes the contents durable.
    fn sync(&mut self) -> (r: DevResult<()>)
        requires
            old(self).inv(),
        ensures
            final(self).inv(),
            final(self).log2() == old(self).log2(),
            final(self).blocks() == old(self).blocks(),
            final(self).checks_bounds() == old(self).checks_bounds(),
            old(self).sync_may_return(r),
    ;
}

/// Interface for FS to read & write: byte-addressed.
pub trait Device: Sized {
    /// The bytes of the device.
    spec fn bytes(&self) -> Seq<u8>;

    /// The device is in a usable state.
    spec fn dev_inv(&self) -> bool;

    /// A transfer of `len` bytes at `offset` may be asked of the device.
    spec fn accepts(&self, offset: int, len: int) -> bool;

    /// `sync` on a device in this state may answer `r`.
    spec fn dev_sync_may_return(&self, r: DevResult<()>) -> bool;

    /// Reads `buf.len()` bytes at `offset`, stopping at the end of the device;
    /// returns how many bytes were read.
    fn read_at(&mut self, offset: usize, buf: &mut [u8]) -> (r: DevResult<usize>)
        requires
            old(self).dev_inv(),
            offset + old(buf)@.len() <= usize::MAX,
            old(self).accepts(offset as int, old(buf)@.len() as int),
        ensures
            final(self).dev_inv(),
            final(self).bytes() == old(self).bytes(),
            forall|o: int, l: int| #[trigger] final(self).accepts(o, l) == old(self).accepts(o, l),
            r == Ok::<usize, DevError>(
                io_len(old(self).bytes().len() as int, offset as int, old(buf)@.len() as int) as usize,
            ),
            final(buf)@ == read_result(old(self).bytes(), offset as int, old(buf)@),
    ;

    /// Writes `buf` at `offset`, stopping at the end of the device; returns how
    /// many bytes were written.
    fn write_at(&mut self, offset: usize, buf: &[u8]) -> (r: DevResult<usize>)
        requires
            old(self).dev_inv(),
            offset + buf@.len() <= usize::MAX,
            old(self).accepts(offset as int, buf@.len() as int),
        ensures
            final(self).dev_inv(),
            final(self).bytes() == write_result(old(self).bytes(), offset as int, buf@),
            forall|o: int, l: int| #[trigger] final(self).accepts(o, l) == old(self).accepts(o, l),
            r == Ok::<usize, DevError>(
                io_len(old(self).bytes().len() as int, offset as int, buf@.len() as int) as usize,
            ),
    ;

    /// Makes the contents durable.
    fn sync(&mut self) -> (r: DevResult<()>)
        requires
            old(self).dev_inv(),
        ensures
            final(self).dev_inv(),
            final(self).bytes() == old(self).bytes(),
            forall|o: int, l: int| #[trigger] final(self).accepts(o, l) == old(self).accepts(o, l),
            old(self).dev_sync_may_return(r),
    ;
}

impl<T: BlockDevice> Device for T {
    open spec fn bytes(&self) -> Seq<u8> {
        flatten_blocks(self.blocks(), block_size(self.log2()))
    }

    open spec fn dev_inv(&self) -> bool {
        self.inv()
    }

    /// A byte device answers `sync` as the block device under it does.
    open spec fn dev_sync_may_return(&self, r: DevResult<()>) -> bool {
        self.sync_may_return(r)
    }

    open spec fn accepts(&self, offset: int, len: int) -> bool {
        self.checks_bounds() || offset + len <= self.blocks().len() * block_size(self.log2())
    }

    fn read_at(&mut self, offset: usize, buf: &mut [u8]) -> (r: DevResult<usize>) {
        proof {
            self.lemma_inv();
        }
        let log2 = self.block_size_log2();
        let bs = block_size_of(log2);
        let ghost blocks = self.blocks();
        let ghost content = flatten_blocks(blocks, bs as nat);
        let ghost size = blocks.len() * bs;
        let ghost old_buf = buf@;
        let ghost cb = self.checks_bounds();
        let len = buf.len();
        let end = offset + len;
        let mut iter = BlockIter { begin: offset, end, block_size_log2: log2 };
        while iter.begin < iter.end
            invariant
                self.inv(),
                self.blocks() == blocks,
                self.checks_bounds() == cb,
                cb == old(self).checks_bounds(),
                blocks == old(self).blocks(),
                old_buf == old(buf)@,
                log2 == old(self).log2(),
                self.log2() == log2,
                bs == block_size(log2 as nat),
                bs > 0,
                (log2 as u32) < usize::BITS,
                forall|i: int|
                    0 <= i < blocks.len() ==> (#[trigger] blocks[i]).len() == bs,
                content == flatten_blocks(blocks, bs as nat),
                size == content.len(),
                self.checks_bounds() || end <= size,
                iter.end == end,
                end == offset + len,
                len == old_buf.len(),
                iter.block_size_log2 == log2,
                offset <= iter.begin <= end,
                iter.begin == offset || iter.begin <= size,
                iter.begin > offset && iter.begin < end ==> iter.begin as int % bs as int == 0,
                buf@.len() == len,
                forall|i: int|
                    0 <= i < len ==> #[trigger] buf@[i] == if i < iter.begin - offset {
                        content[offset + i]
                    } else {
                        old_buf[i]
                    },
            decreases iter.end - iter.begin,
        {
            proof {
                iter.lemma_step();
            }
            let ghost pre = iter;
            let range = iter.next().unwrap();
            let done = range.origin_begin() - offset;
            proof {
                lemma_block_of(pre.begin as int, bs as int);
                if range.block >= blocks.len() {
                    // the failing block is the first one past the end of the device
                    assert(blocks.len() * bs <= range.block * bs) by (nonlinear_arith)
                        requires blocks.len() <= range.block;
                } else {
                    assert(range.block * bs + bs <= blocks.len() * bs) by (nonlinear_arith)
                        requires range.block + 1 <= blocks.len();
                }
                if !self.checks_bounds() {
                    assert(range.block < blocks.len()) by {
                        if range.block >= blocks.len() {
                            assert(blocks.len() * bs <= range.block * bs) by (nonlinear_arith)
                                requires blocks.len() <= range.block;
                        }
                    }
                }
            }
            let mut block_buf: Vec<u8> = vec![0u8; bs];
            let res = BlockDevice::read_at(self, range.block, block_buf.as_mut_slice());
            if res.is_err() {
                proof {
                    assert(range.block == pre.begin as int / bs as int);
                    assert(pre.begin >= size);
                    if pre.begin > offset {
                        assert(pre.begin == range.block * bs);
                        assert(pre.begin == size);
                    }
                    assert(done == io_len(size, offset as int, len as int));
                    assert(buf@ =~= read_result(content, offset as int, old_buf));
                }
                return Ok(done);
            }
            let ghost blk = blocks[range.block as int];
            let mut k = range.begin;
            while k < range.end
                invariant
                    range.begin <= k <= range.end,
                    range.end <= bs,
                    block_buf@.len() == bs,
                    forall|j: int| 0 <= j < bs ==> #[trigger] block_buf@[j] == blk[j],
                    blk.len() == bs,
                    done + range.end - range.begin <= len,
                    buf@.len() == len,
                    forall|i: int|
                        0 <= i < len ==> #[trigger] buf@[i] == if i < done {
                            content[offset + i]
                        } else if i < done + k - range.begin {
                            blk[range.begin + i - done]
                        } else {
                            old_buf[i]
                        },
                decreases range.end - k,
            {
                buf[done + (k - range.begin)] = block_buf[k];
                k += 1;
            }
            proof {
                assert forall|i: int|
                    0 <= i < len implies #[trigger] buf@[i] == if i < iter.begin - offset {
                        content[offset + i]
                    } else {
                        old_buf[i]
                    } by {
                    if done <= i < iter.begin - offset {
                        lemma_flatten_index(blocks, bs as nat, range.block as int, range.begin + i - done);
                    }
                }
            }
        }
        proof {
            assert(buf@ =~= read_result(content, offset as int, old_buf));
        }
        Ok(len)
    }

    fn write_at(&mut self, offset: usize, buf: &[u8]) -> (r: DevResult<usize>) {
        proof {
            self.lemma_inv();
        }
        let log2 = self.block_size_log2();
        let bs = block_size_of(log2);
        let ghost blocks0 = self.blocks();
        let ghost content0 = flatten_blocks(blocks0, bs as nat);
        let ghost size = blocks0.len() * bs;
        let ghost cb = self.checks_bounds();
        let len = buf.len();
        let end = offset + len;
        let mut iter = BlockIter { begin: offset, end, block_size_log2: log2 };
        while iter.begin < iter.end
            invariant
                self.inv(),
                self.log2() == log2,
                self.checks_bounds() == cb,
                cb == old(self).checks_bounds(),
                blocks0 == old(self).blocks(),
                log2 == old(self).log2(),
                self.blocks().len() == blocks0.len(),
                bs == block_size(log2 as nat),
                bs > 0,
                (log2 as u32) < usize::BITS,
                forall|i: int|
                    0 <= i < self.blocks().len() ==> (#[trigger] self.blocks()[i]).len() == bs,
                content0 == flatten_blocks(blocks0, bs as nat),
                size == content0.len(),
                self.checks_bounds() || end <= size,
                iter.end == end,
                end == offset + len,
                len == buf@.len(),
                iter.block_size_log2 == log2,
                offset <= iter.begin <= end,
                iter.begin == offset || iter.begin <= size,
                iter.begin > offset && iter.begin < end ==> iter.begin as int % bs as int == 0,
                forall|i: int|
                    0 <= i < size ==> #[trigger] flatten_blocks(self.blocks(), bs as nat)[i]
                        == if offset <= i < iter.begin {
                        buf@[i - offset]
                    } else {
                        content0[i]
                    },
            decreases iter.end - iter.begin,
        {
            proof {
                iter.lemma_step();
                self.lemma_inv();
            }
            let ghost pre = iter;
            let ghost cur = self.blocks();
            let range = iter.next().unwrap();
            let done = range.origin_begin() - offset;
            proof {
                lemma_block_of(pre.begin as int, bs as int);
                if range.block >= blocks0.len() {
                    assert(blocks0.len() * bs <= range.block * bs) by (nonlinear_arith)
                        requires blocks0.len() <= range.block;
                } else {
                    assert(range.block * bs + bs <= blocks0.len() * bs) by (nonlinear_arith)
                        requires range.block + 1 <= blocks0.len();
                }
                if !self.checks_bounds() {
                    assert(range.block < blocks0.len()) by {
                        if range.block >= blocks0.len() {
                            assert(blocks0.len() * bs <= range.block * bs) by (nonlinear_arith)
                                requires blocks0.len() <= range.block;
                        }
                    }
                }
            }
            let mut block_buf: Vec<u8> = vec![0u8; bs];
            if range.is_full() {
                let mut k: usize = 0;
                while k < bs
                    invariant
                        k <= bs,
                        block_buf@.len() == bs,
                        done + bs <= len,
                        len == buf@.len(),
                        forall|j: int| 0 <= j < k ==> #[trigger] block_buf@[j] == buf@[done + j],
                    decreases bs - k,
                {
                    block_buf[k] = buf[done + k];
                    k += 1;
                }
            } else {
                let res = BlockDevice::read_at(self, range.block, block_buf.as_mut_slice());
                if res.is_err() {
                    proof {
                        assert(flatten_blocks(self.blocks(), bs as nat) =~= write_result(
                            content0,
                            offset as int,
                            buf@,
                        ));
                    }
                    return Ok(done);
                }
                let ghost blk = cur[range.block as int];
                let mut k = range.begin;
                while k < range.end
                    invariant
                        range.begin <= k <= range.end,
                        range.end <= bs,
                        block_buf@.len() == bs,
                        blk.len() == bs,
                        done + range.end - range.begin <= len,
                        len == buf@.len(),
                        forall|j: int|
                            0 <= j < bs ==> #[trigger] block_buf@[j] == if range.begin <= j < k {
                                buf@[done + j - range.begin]
                            } else {
                                blk[j]
                            },
                    decreases range.end - k,
                {
                    block_buf[k] = buf[done + (k - range.begin)];
                    k += 1;
                }
            }
            let ghost new_blk = block_buf@;
            let res = BlockDevice::write_at(self, range.block, block_buf.as_slice());
            if res.is_err() {
                proof {
                    assert(flatten_blocks(self.blocks(), bs as nat) =~= write_result(
                        content0,
                        offset as int,
                        buf@,
                    ));
                }
                return Ok(done);
            }
            proof {
                assert(new_blk.take(bs as int) =~= new_blk);
                lemma_flatten_update(cur, bs as nat, range.block as int, new_blk);
                assert forall|i: int|
                    0 <= i < size implies #[trigger] flatten_blocks(self.blocks(), bs as nat)[i]
                        == if offset <= i < iter.begin {
                        buf@[i - offset]
                    } else {
                        content0[i]
                    } by {
                    if range.block * bs <= i < range.block * bs + bs {
                        let j = i - range.block * bs;
                        if j < range.begin || j >= range.end {
                            lemma_flatten_index(cur, bs as nat, range.block as int, j);
                        }
                    }
                }
            }
        }
        proof {
            assert(flatten_blocks(self.blocks(), bs as nat) =~= write_result(
                content0,
                offset as int,
                buf@,
            ));
        }
        Ok(len)
    }

    fn sync(&mut self) -> (r: DevResult<()>) {
        BlockDevice::sync(self)
    }
}

} // verus!
