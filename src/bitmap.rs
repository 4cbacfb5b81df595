//! Bit allocation over a run of bitmap blocks, seen through the block cache.
use vstd::prelude::*;
use crate::block_cache::BlockCacheManager;
use crate::block_dev::BlockDevice;

verus! {

/// Number of bits in one block.
pub const BLOCK_BITS: usize = 4096;

/// Bit `k` of `byte`.
pub open spec fn bit_of(byte: u8, k: u8) -> bool {
    (byte >> k) & 1u8 == 1u8
}

/// Whether bit `b` of the bitmap that starts at block `start` is set in `disk`.
pub open spec fn is_set(disk: Seq<Seq<u8>>, start: int, b: int) -> bool {
    bit_of(disk[start + b / 4096][(b % 4096) / 8], (b % 8) as u8)
}

/// `disk` with bit `b` of the bitmap at `start` set.
pub open spec fn with_bit_set(disk: Seq<Seq<u8>>, start: int, b: int) -> Seq<Seq<u8>> {
    let blk = start + b / 4096;
    let byt = (b % 4096) / 8;
    disk.update(blk, disk[blk].update(byt, disk[blk][byt] | (1u8 << ((b % 8) as u8))))
}

/// `disk` with bit `b` of the bitmap at `start` cleared.
pub open spec fn with_bit_clear(disk: Seq<Seq<u8>>, start: int, b: int) -> Seq<Seq<u8>> {
    let blk = start + b / 4096;
    let byt = (b % 4096) / 8;
    disk.update(blk, disk[blk].update(byt, disk[blk][byt] & !(1u8 << ((b % 8) as u8))))
}

/// Setting bit `k` of a byte sets it and keeps bit `j != k`.
pub proof fn lemma_set_bit(byte: u8, k: u8, j: u8)
    requires
        k < 8,
        j < 8,
    ensures
        bit_of(byte | (1u8 << k), k),
        j != k ==> bit_of(byte | (1u8 << k), j) == bit_of(byte, j),
{
    assert((((byte | (1u8 << k)) >> k) & 1u8) == 1u8) by (bit_vector)
        requires k < 8;
    assert(j != k ==> (((byte | (1u8 << k)) >> j) & 1u8) == ((byte >> j) & 1u8)) by (bit_vector)
        requires k < 8, j < 8;
}

/// Clearing bit `k` of a byte clears it and keeps bit `j != k`.
pub proof fn lemma_clear_bit(byte: u8, k: u8, j: u8)
    requires
        k < 8,
        j < 8,
    ensures
        !bit_of(byte & !(1u8 << k), k),
        j != k ==> bit_of(byte & !(1u8 << k), j) == bit_of(byte, j),
{
    assert((((byte & !(1u8 << k)) >> k) & 1u8) == 0u8) by (bit_vector)
        requires k < 8;
    assert(j != k ==> (((byte & !(1u8 << k)) >> j) & 1u8) == ((byte >> j) & 1u8)) by (bit_vector)
        requires k < 8, j < 8;
}

/// Every bit of a full byte is set, and a byte with its eight bits set is full.
pub proof fn lemma_full_byte(byte: u8, j: u8)
    requires
        j < 8,
    ensures
        byte == 0xff ==> bit_of(byte, j),
        (bit_of(byte, 0) && bit_of(byte, 1) && bit_of(byte, 2) && bit_of(byte, 3) && bit_of(byte, 4)
            && bit_of(byte, 5) && bit_of(byte, 6) && bit_of(byte, 7)) ==> byte == 0xff,
{
    assert(byte == 0xff ==> ((byte >> j) & 1u8) == 1u8) by (bit_vector)
        requires j < 8;
    assert(((byte >> 0u8) & 1u8 == 1u8 && (byte >> 1u8) & 1u8 == 1u8 && (byte >> 2u8) & 1u8 == 1u8
        && (byte >> 3u8) & 1u8 == 1u8 && (byte >> 4u8) & 1u8 == 1u8 && (byte >> 5u8) & 1u8 == 1u8
        && (byte >> 6u8) & 1u8 == 1u8 && (byte >> 7u8) & 1u8 == 1u8) ==> byte == 0xff) by (bit_vector);
}

/// No bit of 0 is set; only bit 0 of 1 is set.
pub proof fn lemma_small_bytes(k: u8)
    requires
        k < 8,
    ensures
        !bit_of(0u8, k),
        bit_of(1u8, k) == (k == 0),
        0u8 | (1u8 << 0u8) == 1u8,
{
    assert(((0u8 >> k) & 1u8) == 0u8) by (bit_vector);
    assert((((1u8 >> k) & 1u8) == 1u8) == (k == 0)) by (bit_vector)
        requires k < 8;
    assert(0u8 | (1u8 << 0u8) == 1u8) by (bit_vector);
}

/// Bit `4096 * blk + 8 * byt + k` lies in block `blk`, byte `byt`, bit `k`.
pub proof fn lemma_decompose(blk: int, byt: int, k: int)
    requires
        blk >= 0,
        0 <= byt < 512,
        0 <= k < 8,
    ensures
        (4096 * blk + 8 * byt + k) / 4096 == blk,
        ((4096 * blk + 8 * byt + k) % 4096) / 8 == byt,
        (4096 * blk + 8 * byt + k) % 8 == k,
{
    assert((4096 * blk + 8 * byt + k) / 4096 == blk) by (nonlinear_arith)
        requires blk >= 0, 0 <= byt < 512, 0 <= k < 8;
    assert((4096 * blk + 8 * byt + k) % 4096 == 8 * byt + k) by (nonlinear_arith)
        requires blk >= 0, 0 <= byt < 512, 0 <= k < 8;
    assert((4096 * blk + 8 * byt + k) % 8 == k) by (nonlinear_arith)
        requires blk >= 0, 0 <= byt < 512, 0 <= k < 8;
}

/// Splits a bit index into its block, its 64-bit word inside the block and
/// its bit inside the word.
pub fn decomposition(bit: usize) -> (r: (usize, usize, usize))
    ensures
        r.0 == bit / 4096,
        r.1 == (bit % 4096) / 64,
        r.2 == bit % 64,
        r.1 < 64,
{
    let block_pos = bit / BLOCK_BITS;
    let rest = bit % BLOCK_BITS;
    assert(rest % 64 == bit % 64) by (nonlinear_arith)
        requires rest == bit % 4096;
    (block_pos, rest / 64, rest % 64)
}

/// A bitmap of `blocks` blocks starting at block `start_block_id`.
#[derive(Clone, Copy, Debug, PartialEq, Eq, Structural)]
pub struct Bitmap {
    start_block_id: usize,
    blocks: usize,
}

impl Bitmap {
    /// First block of the bitmap.
    pub closed spec fn start(&self) -> usize {
        self.start_block_id
    }

    /// Number of blocks of the bitmap.
    pub closed spec fn len(&self) -> usize {
        self.blocks
    }

    /// Number of bits.
    pub open spec fn max_bits(&self) -> int {
        self.len() * 4096
    }

    /// The bitmap fits in the device and its bit count fits in a `usize`.
    pub open spec fn fits(&self, disk_len: int) -> bool {
        &&& self.start() + self.len() <= disk_len
        &&& self.max_bits() <= usize::MAX
    }

    /// The bitmap of `blocks` blocks starting at `start_block_id`.
    pub fn new(start_block_id: usize, blocks: usize) -> (r: Bitmap)
        ensures
            r.start() == start_block_id,
            r.len() == blocks,
    {
        Bitmap { start_block_id, blocks }
    }

    /// Number of bits, `blocks * 4096`.
    pub fn maximum(&self) -> (r: usize)
        requires
            self.max_bits() <= usize::MAX,
        ensures
            r == self.max_bits(),
    {
        self.blocks * BLOCK_BITS
    }

    /// Sets the lowest clear bit and returns its index, or `None` when every
    /// bit is set.
    pub fn allocate(&self, cache: &mut BlockCacheManager, dev: &mut BlockDevice) -> (r: Option<usize>)
        requires
            old(cache).wf(old(dev)),
            self.fits(old(dev).view().len() as int),
        ensures
            final(cache).wf(final(dev)),
            final(dev).view().len() == old(dev).view().len(),
            r.is_none() ==> final(cache).view(final(dev)) == old(cache).view(old(dev))
                && forall|b: int| 0 <= b < self.max_bits() ==> is_set(old(cache).view(old(dev)), self.start() as int, b),
            r.is_some() ==> {
                let b = r.unwrap() as int;
                let v = old(cache).view(old(dev));
                &&& b < self.max_bits()
                &&& !is_set(v, self.start() as int, b)
                &&& forall|c: int| 0 <= c < b ==> is_set(v, self.start() as int, c)
                &&& final(cache).view(final(dev)) == with_bit_set(v, self.start() as int, b)
            },
    {
        let ghost v0 = cache.view(dev);
        let ghost st = self.start_block_id as int;
        let mut block_id: usize = 0;
        while block_id < self.blocks
            invariant
                cache.wf(dev),
                cache.view(dev) == v0,
                dev.view().len() == v0.len(),
                v0.len() == old(dev).view().len(),
                v0 == old(cache).view(old(dev)),
                self.fits(v0.len() as int),
                dev.wf(),
                block_id <= self.blocks,
                st == self.start(),
                forall|c: int| 0 <= c < 4096 * block_id ==> is_set(v0, st, c),
            decreases self.blocks - block_id,
        {
            let mut byt: usize = 0;
            while byt < 512
                invariant
                    cache.wf(dev),
                    cache.view(dev) == v0,
                    dev.view().len() == v0.len(),
                    v0.len() == old(dev).view().len(),
                    v0 == old(cache).view(old(dev)),
                v0 == old(cache).view(old(dev)),
                    self.fits(v0.len() as int),
                    dev.wf(),
                    block_id < self.blocks,
                    st == self.start(),
                    byt <= 512,
                    forall|c: int| 0 <= c < 4096 * block_id + 8 * byt ==> is_set(v0, st, c),
                decreases 512 - byt,
            {
                let value = cache.read_byte(dev, self.start_block_id + block_id, byt);
                if value != 0xff {
                    let mut k: u8 = 0;
                    while k < 8 && (value >> k) & 1u8 == 1u8
                        invariant
                            k <= 8,
                            value != 0xff,
                            forall|j: u8| j < k ==> bit_of(value, j),
                        decreases 8 - k,
                    {
                        k = k + 1;
                    }
                    proof {
                        if k == 8 {
                            assert(bit_of(value, 0) && bit_of(value, 1) && bit_of(value, 2) && bit_of(value, 3));
                            assert(bit_of(value, 4) && bit_of(value, 5) && bit_of(value, 6) && bit_of(value, 7));
                            lemma_full_byte(value, 0);
                        }
                    }
                    let b = 4096 * block_id + 8 * byt + k as usize;
                    proof {
                        lemma_decompose(block_id as int, byt as int, k as int);
                        assert forall|c: int| 0 <= c < b implies is_set(v0, st, c) by {
                            if c >= 4096 * block_id + 8 * byt {
                                let j = c - (4096 * block_id + 8 * byt);
                                lemma_decompose(block_id as int, byt as int, j);
                                assert(bit_of(value, j as u8));
                            }
                        }
                    }
                    let mask: u8 = 1u8 << k;
                    cache.write_byte(dev, self.start_block_id + block_id, byt, value | mask);
                    assert(b / 4096 == block_id && (b % 4096) / 8 == byt && (b % 8) as u8 == k);
                    assert(!bit_of(value, k));
                    assert(value == v0[st + block_id][byt as int]);
                    assert(!is_set(v0, st, b as int));
                    assert(cache.view(dev) == with_bit_set(v0, st, b as int));
                    assert(b < self.max_bits()) by (nonlinear_arith)
                        requires b == 4096 * block_id + 8 * byt + k, block_id < self.len(), byt < 512, k < 8;
                    return Some(b);
                }
                proof {
                    assert forall|c: int| 0 <= c < 4096 * block_id + 8 * (byt + 1) implies is_set(v0, st, c) by {
                        if c >= 4096 * block_id + 8 * byt {
                            let j = c - (4096 * block_id + 8 * byt);
                            lemma_decompose(block_id as int, byt as int, j);
                            lemma_full_byte(value, j as u8);
                        }
                    }
                }
                byt = byt + 1;
            }
            block_id = block_id + 1;
        }
        None
    }

    /// Clears bit `bit`, which must be set.
    pub fn dealloc(&self, cache: &mut BlockCacheManager, dev: &mut BlockDevice, bit: usize)
        requires
            old(cache).wf(old(dev)),
            self.fits(old(dev).view().len() as int),
            bit < self.max_bits(),
            is_set(old(cache).view(old(dev)), self.start() as int, bit as int),
        ensures
            final(cache).wf(final(dev)),
            final(dev).view().len() == old(dev).view().len(),
            final(cache).view(final(dev)) == with_bit_clear(old(cache).view(old(dev)), self.start() as int, bit as int),
            !is_set(final(cache).view(final(dev)), self.start() as int, bit as int),
    {
        let (block_pos, word, inner) = decomposition(bit);
        let byt = word * 8 + inner / 8;
        let k = (inner % 8) as u8;
        assert(byt == (bit % 4096) / 8 && k == bit % 8) by (nonlinear_arith)
            requires word == (bit % 4096) / 64, inner == bit % 64, byt == word * 8 + inner / 8, k == inner % 8;
        let value = cache.read_byte(dev, self.start_block_id + block_pos, byt);
        let mask: u8 = 1u8 << k;
        cache.write_byte(dev, self.start_block_id + block_pos, byt, value & !mask);
        proof {
            lemma_clear_bit(value, k, k);
        }
    }
}

/// Setting a clear bit and clearing it again gives back the same disk.
pub proof fn lemma_set_then_clear(disk: Seq<Seq<u8>>, start: int, b: int)
    requires
        0 <= b,
        0 <= start,
        start + b / 4096 < disk.len(),
        (b % 4096) / 8 < disk[start + b / 4096].len(),
        !is_set(disk, start, b),
    ensures
        with_bit_clear(with_bit_set(disk, start, b), start, b) == disk,
        !is_set(with_bit_clear(with_bit_set(disk, start, b), start, b), start, b),
{
    let blk = start + b / 4096;
    let byt = (b % 4096) / 8;
    let k = (b % 8) as u8;
    let v = disk[blk][byt];
    assert(!bit_of(v, k));
    assert(((v | (1u8 << k)) & !(1u8 << k)) == v) by (bit_vector)
        requires k < 8, (v >> k) & 1u8 != 1u8;
    assert(with_bit_clear(with_bit_set(disk, start, b), start, b)[blk] =~= disk[blk]);
    assert(with_bit_clear(with_bit_set(disk, start, b), start, b) =~= disk);
}

} // verus!