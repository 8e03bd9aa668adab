//! Blocks of a device: block ranges and the iteration over them, and a
//! wrapper that remembers whether its value was written.
use vstd::prelude::*;
use vstd::arithmetic::power2::{pow2, lemma_pow2_pos};
use vstd::arithmetic::div_mod::{lemma_fundamental_div_mod, lemma_fundamental_div_mod_converse};
use vstd::arithmetic::mul::lemma_mul_inequality;
use vstd::bits::{lemma_usize_shl_is_mul, lemma_usize_pow2_no_overflow};

verus! {

/// Number of bytes in a block whose size is `2^log2`.
pub open spec fn block_size(log2: nat) -> nat {
    pow2(log2)
}

/// `1 << log2` computed without overflow for a shift below the word width.
pub fn block_size_of(log2: u8) -> (bs: usize)
    requires
        (log2 as u32) < usize::BITS,
    ensures
        bs == block_size(log2 as nat),
        bs > 0,
{
    proof {
        lemma_usize_pow2_no_overflow(log2 as nat);
        lemma_usize_shl_is_mul(1, log2 as usize);
    }
    1usize << (log2 as usize)
}

/// Facts about the block holding byte `x` for a block size `bs`.
pub proof fn lemma_block_of(x: int, bs: int)
    requires
        0 <= x,
        0 < bs,
    ensures
        x == (x / bs) * bs + x % bs,
        0 <= x % bs < bs,
        0 <= x / bs,
        x / bs * bs <= x,
{
    lemma_fundamental_div_mod(x, bs);
    assert((x / bs) * bs == bs * (x / bs)) by (nonlinear_arith);
    assert(0 <= x / bs) by (nonlinear_arith)
        requires 0 <= x, 0 < bs;
}

/// A byte at `b * bs + r` (with `r < bs`) lies in block `b`, at offset `r`.
pub proof fn lemma_in_block(b: int, r: int, bs: int)
    requires
        0 <= b,
        0 <= r < bs,
    ensures
        (b * bs + r) / bs == b,
        (b * bs + r) % bs == r,
{
    lemma_fundamental_div_mod_converse(b * bs + r, bs, b, r);
    assert(b * bs == bs * b) by (nonlinear_arith);
}


/// Wraps a value and remembers whether it was handed out for writing since
/// the last `sync`: writing sets the dirty flag, `sync` clears it.
pub struct Dirty<T> {
    value: T,
    dirty: bool,
}

impl<T> Dirty<T> {
    /// The wrapped value.
    pub closed spec fn val(self) -> T {
        self.value
    }

    /// Whether the value was written since the last `sync`.
    pub closed spec fn is_dirty(self) -> bool {
        self.dirty
    }

    /// A clean wrapper around `val`.
    pub fn new(val: T) -> (r: Dirty<T>)
        ensures
            r.val() == val,
            !r.is_dirty(),
    {
        Dirty { value: val, dirty: false }
    }

    /// A wrapper around `val` that starts out dirty.
    pub fn new_dirty(val: T) -> (r: Dirty<T>)
        ensures
            r.val() == val,
            r.is_dirty(),
    {
        Dirty { value: val, dirty: true }
    }

    /// Whether the value was written since the last `sync`.
    pub fn dirty(&self) -> (r: bool)
        ensures
            r == self.is_dirty(),
    {
        self.dirty
    }

    /// Marks the value as written back.
    pub fn sync(&mut self)
        ensures
            final(self).val() == old(self).val(),
            !final(self).is_dirty(),
    {
        self.dirty = false;
    }

    /// Reads the value; the dirty flag is left as it is.
    pub fn get(&self) -> (r: &T)
        ensures
            *r == self.val(),
    {
        &self.value
    }

    /// Hands the value out for writing and marks it dirty.
    pub fn get_mut(&mut self) -> (r: &mut T)
        ensures
            *r == old(self).val(),
            final(self).is_dirty(),
            final(self).val() == *final(r),
    {
        self.dirty = true;
        &mut self.value
    }
}

/// A part of one block: bytes `begin .. end` inside block number `block`.
#[derive(Clone, Copy, Debug, PartialEq, Eq, Structural)]
pub struct BlockRange {
    pub block: usize,
    pub begin: usize,
    pub end: usize,
    pub block_size_log2: u8,
}

impl BlockRange {
    /// First byte of the range, counted from the start of the device.
    pub open spec fn spec_origin_begin(self) -> int {
        self.block * block_size(self.block_size_log2 as nat) + self.begin
    }

    /// One past the last byte of the range, counted from the start of the device.
    pub open spec fn spec_origin_end(self) -> int {
        self.block * block_size(self.block_size_log2 as nat) + self.end
    }

    /// Whether the range covers no byte.
    pub fn is_empty(&self) -> (r: bool)
        ensures
            r == (self.end == self.begin),
    {
        self.end == self.begin
    }

    /// Number of bytes in the range.
    pub fn len(&self) -> (r: usize)
        requires
            self.begin <= self.end,
        ensures
            r == self.end - self.begin,
    {
        self.end - self.begin
    }

    /// Whether the range covers a whole block.
    pub fn is_full(&self) -> (r: bool)
        requires
            self.begin <= self.end,
            (self.block_size_log2 as u32) < usize::BITS,
        ensures
            r == (self.end - self.begin == block_size(self.block_size_log2 as nat)),
    {
        self.len() == block_size_of(self.block_size_log2)
    }

    /// First byte of the range, counted from the start of the device.
    pub fn origin_begin(&self) -> (r: usize)
        requires
            (self.block_size_log2 as u32) < usize::BITS,
            self.spec_origin_begin() <= usize::MAX,
        ensures
            r == self.spec_origin_begin(),
    {
        let bs = block_size_of(self.block_size_log2);
        proof {
            lemma_mul_inequality(0, self.begin as int, bs as int);
            assert(0 <= self.block * bs) by (nonlinear_arith)
                requires 0 <= self.block, 0 <= bs;
        }
        self.block * bs + self.begin
    }

    /// One past the last byte of the range, counted from the start of the device.
    pub fn origin_end(&self) -> (r: usize)
        requires
            (self.block_size_log2 as u32) < usize::BITS,
            self.spec_origin_end() <= usize::MAX,
        ensures
            r == self.spec_origin_end(),
    {
        let bs = block_size_of(self.block_size_log2);
        proof {
            assert(0 <= self.block * bs) by (nonlinear_arith)
                requires 0 <= self.block, 0 <= bs;
        }
        self.block * bs + self.end
    }
}

/// Splits the byte interval `begin .. end` into the parts that fall into each block.
pub struct BlockIter {
    pub begin: usize,
    pub end: usize,
    pub block_size_log2: u8,
}

impl BlockIter {
    /// The range that the next call hands out, for a non-empty interval.
    pub open spec fn spec_front(self) -> BlockRange {
        let bs = block_size(self.block_size_log2 as nat);
        let block = self.begin as int / bs as int;
        BlockRange {
            block: block as usize,
            begin: (self.begin as int % bs as int) as usize,
            end: (if block == self.end as int / bs as int {
                self.end as int % bs as int
            } else {
                bs as int
            }) as usize,
            block_size_log2: self.block_size_log2,
        }
    }

    /// The iterator after handing out its next range.
    pub open spec fn spec_advance(self) -> BlockIter {
        let r = self.spec_front();
        BlockIter {
            begin: (self.begin + r.end - r.begin) as usize,
            end: self.end,
            block_size_log2: self.block_size_log2,
        }
    }

    /// All ranges still to come, in order.
    pub open spec fn spec_ranges(self) -> Seq<BlockRange>
        decreases self.end - self.begin,
    {
        if self.begin >= self.end || (self.block_size_log2 as u32) >= usize::BITS {
            Seq::empty()
        } else {
            let next = self.spec_advance();
            if self.begin < next.begin <= self.end {
                seq![self.spec_front()].add(next.spec_ranges())
            } else {
                Seq::empty()
            }
        }
    }

    /// The next range is non-empty, lies in one block, starts at `begin`,
    /// and the iterator moves forward exactly past it without passing `end`.
    pub proof fn lemma_step(self)
        requires
            self.begin < self.end,
            (self.block_size_log2 as u32) < usize::BITS,
        ensures
            ({
                let r = self.spec_front();
                let n = self.spec_advance();
                let bs = block_size(self.block_size_log2 as nat);
                &&& r.block_size_log2 == self.block_size_log2
                &&& r.begin < r.end <= bs
                &&& r.spec_origin_begin() == self.begin
                &&& r.spec_origin_end() == n.begin
                &&& self.begin < n.begin <= self.end
                &&& n.end == self.end
                &&& n.block_size_log2 == self.block_size_log2
                &&& (n.begin < self.end ==> n.begin as int % bs as int == 0)
            }),
    {
        let bs = block_size(self.block_size_log2 as nat) as int;
        lemma_pow2_pos(self.block_size_log2 as nat);
        let b = self.begin as int;
        let e = self.end as int;
        lemma_block_of(b, bs);
        lemma_block_of(e, bs);
        let blk = b / bs;
        if blk == e / bs {
        } else {
            // the block of `begin` lies strictly before the block of `end`
            assert(blk < e / bs) by {
                if blk > e / bs {
                    assert((e / bs + 1) * bs <= blk * bs) by (nonlinear_arith)
                        requires e / bs + 1 <= blk, 0 < bs;
                    assert((e / bs + 1) * bs == e / bs * bs + bs) by (nonlinear_arith);
                }
            }
            assert((blk + 1) * bs <= e / bs * bs) by (nonlinear_arith)
                requires blk + 1 <= e / bs, 0 < bs;
            assert((blk + 1) * bs == blk * bs + bs) by (nonlinear_arith);
            lemma_in_block(blk + 1, 0, bs);
        }
    }


    /// The ranges of an interval tile it: each is a non-empty part of one block,
    /// the first starts at `begin`, each ends where the next starts, and the
    /// last ends at `end`.
    pub proof fn lemma_ranges_tile(self)
        requires
            self.begin <= self.end,
            (self.block_size_log2 as u32) < usize::BITS,
        ensures
            ({
                let rs = self.spec_ranges();
                let bs = block_size(self.block_size_log2 as nat);
                &&& (self.begin == self.end <==> rs.len() == 0)
                &&& rs.len() > 0 ==> rs[0].spec_origin_begin() == self.begin
                    && rs.last().spec_origin_end() == self.end
                &&& forall|i: int| 0 <= i < rs.len() ==> {
                    &&& (#[trigger] rs[i]).begin < rs[i].end <= bs
                    &&& rs[i].block_size_log2 == self.block_size_log2
                    &&& self.begin <= rs[i].spec_origin_begin()
                    &&& rs[i].spec_origin_end() <= self.end
                }
                &&& forall|i: int| 0 <= i < rs.len() - 1 ==>
                    (#[trigger] rs[i]).spec_origin_end() == rs[i + 1].spec_origin_begin()
            }),
        decreases self.end - self.begin,
    {
        if self.begin < self.end {
            self.lemma_step();
            let next = self.spec_advance();
            next.lemma_ranges_tile();
            let rs = self.spec_ranges();
            let tail = next.spec_ranges();
            assert(rs == seq![self.spec_front()].add(tail));
            assert forall|i: int| 0 <= i < rs.len() - 1 implies
                (#[trigger] rs[i]).spec_origin_end() == rs[i + 1].spec_origin_begin() by {
                if i > 0 {
                    assert(rs[i] == tail[i - 1]);
                    assert(rs[i + 1] == tail[i]);
                }
            }
            assert forall|i: int| 0 <= i < rs.len() implies {
                &&& (#[trigger] rs[i]).begin < rs[i].end <= block_size(self.block_size_log2 as nat)
                &&& rs[i].block_size_log2 == self.block_size_log2
                &&& self.begin <= rs[i].spec_origin_begin()
                &&& rs[i].spec_origin_end() <= self.end
            } by {
                if i > 0 {
                    assert(rs[i] == tail[i - 1]);
                }
            }
        }
    }


    /// The ranges of an interval go block by block: the first lies in the
    /// block of `begin`, each next one in the block after, every one but the
    /// first starts at its block's start and every one but the last runs to
    /// its block's end (so those between are full blocks), and there is one
    /// for each block that the interval touches.
    pub proof fn lemma_ranges_blocks(self)
        requires
            self.begin <= self.end,
            (self.block_size_log2 as u32) < usize::BITS,
        ensures
            ({
                let rs = self.spec_ranges();
                let bs = block_size(self.block_size_log2 as nat) as int;
                &&& rs.len() == if self.begin < self.end {
                    (self.end as int - 1) / bs - self.begin as int / bs + 1
                } else {
                    0
                }
                &&& rs.len() > 0 ==> rs[0].block == self.begin as int / bs
                &&& forall|i: int| 0 <= i < rs.len() - 1 ==> (#[trigger] rs[i + 1]).block == rs[i].block + 1
                &&& forall|i: int| 0 < i < rs.len() ==> (#[trigger] rs[i]).begin == 0
                &&& forall|i: int| 0 <= i < rs.len() - 1 ==> (#[trigger] rs[i]).end == bs
            }),
        decreases self.end - self.begin,
    {
        if self.begin < self.end {
            self.lemma_step();
            let bs = block_size(self.block_size_log2 as nat) as int;
            lemma_pow2_pos(self.block_size_log2 as nat);
            lemma_usize_pow2_no_overflow(self.block_size_log2 as nat);
            let fr = self.spec_front();
            let next = self.spec_advance();
            let rs = self.spec_ranges();
            let tail = next.spec_ranges();
            let b = self.begin as int;
            let e = self.end as int;
            let blk = b / bs;
            lemma_block_of(b, bs);
            lemma_block_of(e, bs);
            assert(rs == seq![fr].add(tail));
            assert(fr.block == blk);
            if blk == e / bs {
                assert(next.begin == e);
                lemma_in_block(blk, e - 1 - blk * bs, bs);
                assert(tail.len() == 0);
            } else {
                assert(fr.end == bs);
                assert(next.begin == (blk + 1) * bs) by (nonlinear_arith)
                    requires next.begin == blk * bs + bs;
                if next.begin == e {
                    lemma_in_block(blk, bs - 1, bs);
                    assert((blk + 1) * bs - 1 == blk * bs + (bs - 1)) by (nonlinear_arith);
                    assert(tail.len() == 0);
                } else {
                    next.lemma_ranges_blocks();
                    next.lemma_ranges_unfold();
                    lemma_in_block(blk + 1, 0, bs);
                    assert(next.begin as int / bs == blk + 1);
                    assert(tail[0].block == blk + 1);
                    assert forall|i: int| 0 <= i < rs.len() - 1 implies (#[trigger] rs[i + 1]).block == rs[i].block + 1 by {
                        if i > 0 {
                            assert(rs[i] == tail[i - 1]);
                            assert(rs[i + 1] == tail[i]);
                            let j = i - 1;
                            assert(tail[j + 1].block == tail[j].block + 1);
                        } else {
                            assert(rs[1] == tail[0]);
                        }
                    }
                    assert forall|i: int| 0 < i < rs.len() implies (#[trigger] rs[i]).begin == 0 by {
                        assert(rs[i] == tail[i - 1]);
                        if i == 1 {
                            assert(next.begin as int % bs == 0);
                        }
                    }
                    assert forall|i: int| 0 <= i < rs.len() - 1 implies (#[trigger] rs[i]).end == bs by {
                        if i > 0 {
                            assert(rs[i] == tail[i - 1]);
                        }
                    }
                }
            }
        }
    }

    /// The ranges still to come are the next range followed by those after it.
    pub proof fn lemma_ranges_unfold(self)
        requires
            self.begin < self.end,
            (self.block_size_log2 as u32) < usize::BITS,
        ensures
            self.spec_ranges() == seq![self.spec_front()].add(self.spec_advance().spec_ranges()),
    {
        self.lemma_step();
    }

    /// Hands out the part of the interval that lies in its first block, and moves past it.
    pub fn next(&mut self) -> (r: Option<BlockRange>)
        requires
            (old(self).block_size_log2 as u32) < usize::BITS,
        ensures
            old(self).begin >= old(self).end ==> r is None && *final(self) == *old(self),
            old(self).begin < old(self).end ==> r == Some(old(self).spec_front())
                && *final(self) == old(self).spec_advance(),
    {
        if self.begin >= self.end {
            return None;
        }
        proof {
            self.lemma_step();
        }
        let block_size_log2 = self.block_size_log2;
        let block_size = block_size_of(self.block_size_log2);
        let block = self.begin / block_size;
        let begin = self.begin % block_size;
        let end = if block == self.end / block_size {
            self.end % block_size
        } else {
            block_size
        };
        self.begin += end - begin;
        Some(BlockRange { block, begin, end, block_size_log2 })
    }
}

} // verus!
