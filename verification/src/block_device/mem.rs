//! A block device kept in memory.
use vstd::prelude::*;
use crate::block_device::{BlockDevice, BlockId, DevError, DevResult};
use crate::util::{block_size, block_size_of};

verus! {

/// A block device held in memory: `data` cut into blocks of `2^block_size_log2`
/// bytes; blocks past the end are refused.
pub struct MemBlockDevice {
    data: Vec<u8>,
    block_size_log2: u8,
}

/// `data` cut into blocks of `bs` bytes.
pub open spec fn cut_blocks(data: Seq<u8>, bs: nat) -> Seq<Seq<u8>> {
    Seq::new(data.len() / bs, |b: int| data.subrange(b * bs, b * bs + bs))
}

impl MemBlockDevice {
    /// The bytes held.
    pub closed spec fn data(&self) -> Seq<u8> {
        self.data@
    }

    /// A device holding `data`, in blocks of `2^block_size_log2` bytes.
    pub fn new(data: Vec<u8>, block_size_log2: u8) -> (r: Self)
        requires
            (block_size_log2 as u32) < usize::BITS,
            data@.len() % block_size(block_size_log2 as nat) == 0,
        ensures
            r.data() == data@,
            r.inv(),
            r.log2() == block_size_log2,
            r.checks_bounds(),
    {
        // reading the length brings in that it fits in a `usize`
        let _len: usize = data.len();
        MemBlockDevice { data, block_size_log2 }
    }

    /// The bytes held.
    pub fn as_slice(&self) -> (r: &[u8])
        ensures
            r@ == self.data(),
    {
        self.data.as_slice()
    }

    proof fn lemma_block_bounds(&self, b: int)
        requires
            self.inv(),
            0 <= b < self.data@.len() / block_size(self.block_size_log2 as nat),
        ensures
            b * block_size(self.block_size_log2 as nat) + block_size(self.block_size_log2 as nat)
                <= self.data@.len(),
    {
        vstd::arithmetic::power2::lemma_pow2_pos(self.block_size_log2 as nat);
        let bs = block_size(self.block_size_log2 as nat) as int;
        let n = self.data@.len() as int;
        vstd::arithmetic::div_mod::lemma_fundamental_div_mod(n, bs);
        assert(b * bs + bs <= (n / bs) * bs) by (nonlinear_arith)
            requires b + 1 <= n / bs, bs > 0;
        assert((n / bs) * bs == bs * (n / bs)) by (nonlinear_arith);
    }
}

impl BlockDevice for MemBlockDevice {
    closed spec fn log2(&self) -> nat {
        self.block_size_log2 as nat
    }

    closed spec fn blocks(&self) -> Seq<Seq<u8>> {
        cut_blocks(self.data@, block_size(self.block_size_log2 as nat))
    }

    closed spec fn inv(&self) -> bool {
        &&& (self.block_size_log2 as u32) < usize::BITS
        &&& self.data@.len() % block_size(self.block_size_log2 as nat) == 0
        &&& self.data@.len() <= usize::MAX
    }

    closed spec fn checks_bounds(&self) -> bool {
        true
    }

    /// `sync` always succeeds.
    open spec fn sync_may_return(&self, r: DevResult<()>) -> bool {
        r is Ok
    }

    proof fn lemma_inv(&self) {
        vstd::arithmetic::power2::lemma_pow2_pos(self.block_size_log2 as nat);
        let bs = block_size(self.block_size_log2 as nat) as int;
        let n = self.data@.len() as int;
        assert(n / bs <= n) by (nonlinear_arith)
            requires bs > 0, n >= 0;
        assert forall|i: int| 0 <= i < self.blocks().len() implies (#[trigger] self.blocks()[i]).len()
            == block_size(self.log2()) by {
            self.lemma_block_bounds(i);
            assert(i * bs >= 0) by (nonlinear_arith)
                requires i >= 0, bs > 0;
        }
    }

    fn block_size_log2(&self) -> (r: u8) {
        self.block_size_log2
    }

    fn read_at(&mut self, block_id: BlockId, buf: &mut [u8]) -> (r: DevResult<()>) {
        proof {
            vstd::arithmetic::power2::lemma_pow2_pos(self.block_size_log2 as nat);
        }
        let bs = block_size_of(self.block_size_log2);
        if block_id >= self.data.len() / bs {
            return Err(DevError);
        }
        proof {
            self.lemma_block_bounds(block_id as int);
            assert(block_id * bs >= 0) by (nonlinear_arith)
                requires block_id >= 0, bs > 0;
        }
        let begin = block_id * bs;
        let mut k: usize = 0;
        while k < bs
            invariant
                k <= bs,
                begin + bs <= self.data@.len(),
                self.data@.len() <= usize::MAX,
                bs <= buf@.len(),
                buf@.len() == old(buf)@.len(),
                forall|j: int| 0 <= j < k ==> #[trigger] buf@[j] == self.data@[begin + j],
                forall|j: int| k <= j < buf@.len() ==> #[trigger] buf@[j] == old(buf)@[j],
            decreases bs - k,
        {
            buf[k] = self.data[begin + k];
            k += 1;
        }
        assert(buf@ =~= self.blocks()[block_id as int] + old(buf)@.skip(bs as int));
        Ok(())
    }

    fn write_at(&mut self, block_id: BlockId, buf: &[u8]) -> (r: DevResult<()>) {
        proof {
            vstd::arithmetic::power2::lemma_pow2_pos(self.block_size_log2 as nat);
        }
        let bs = block_size_of(self.block_size_log2);
        if block_id >= self.data.len() / bs {
            return Err(DevError);
        }
        proof {
            self.lemma_block_bounds(block_id as int);
            assert(block_id * bs >= 0) by (nonlinear_arith)
                requires block_id >= 0, bs > 0;
        }
        let ghost old_data = self.data@;
        let begin = block_id * bs;
        let mut k: usize = 0;
        while k < bs
            invariant
                k <= bs,
                begin + bs <= self.data@.len(),
                bs <= buf@.len(),
                self.data@.len() == old_data.len(),
                self.block_size_log2 == old(self).block_size_log2,
                old_data == old(self).data@,
                bs == block_size(self.block_size_log2 as nat),
                bs > 0,
                old(self).inv(),
                forall|j: int| 0 <= j < self.data@.len() ==> #[trigger] self.data@[j] == if begin <= j
                    < begin + k {
                    buf@[j - begin]
                } else {
                    old_data[j]
                },
            decreases bs - k,
        {
            self.data.set(begin + k, buf[k]);
            k += 1;
        }
        proof {
            let nb = cut_blocks(self.data@, bs as nat);
            let ob = cut_blocks(old_data, bs as nat).update(block_id as int, buf@.take(bs as int));
            assert forall|b: int| 0 <= b < nb.len() implies #[trigger] nb[b] == ob[b] by {
                self.lemma_block_bounds(b);
                assert(b * bs >= 0) by (nonlinear_arith)
                    requires b >= 0, bs > 0;
                if b != block_id {
                    if b < block_id {
                        assert(b * bs + bs <= block_id * bs) by (nonlinear_arith)
                            requires b + 1 <= block_id, bs > 0;
                    } else {
                        assert(block_id * bs + bs <= b * bs) by (nonlinear_arith)
                            requires block_id + 1 <= b, bs > 0;
                    }
                }
                assert(nb[b] =~= ob[b]);
            }
            assert(nb =~= ob);
        }
        Ok(())
    }

    fn sync(&mut self) -> (r: DevResult<()>) {
        Ok(())
    }
}

} // verus!
