//! On-disk encoding of easy-fs: little-endian 32-bit fields, the super block
//! and the disk inode.
use vstd::prelude::*;
use crate::block_cache::BlockCacheManager;
use crate::block_dev::BlockDevice;

verus! {

/// Magic number of an easy-fs super block.
pub const EFS_MAGIC: u32 = 0x3b80_0000;

/// Size of a disk inode, in bytes.
pub const DISK_INODE_SIZE: usize = 128;

/// Disk inodes per block.
pub const INODES_PER_BLOCK: u32 = 4;

/// Number of direct block pointers of a disk inode.
pub const INODE_DIRECT_COUNT: usize = 28;

/// Offset of the type field inside a disk inode.
pub const INODE_TYPE_OFFSET: usize = 124;

/// Type code of a regular file.
pub const DISK_INODE_FILE: u32 = 0;

/// Type code of a directory.
pub const DISK_INODE_DIRECTORY: u32 = 1;

/// Byte `k` (0 = least significant) of `v`.
pub open spec fn byte_of(v: u32, k: int) -> u8 {
    if k == 0 {
        (v % 256) as u8
    } else if k == 1 {
        ((v / 256) % 256) as u8
    } else if k == 2 {
        ((v / 65536) % 256) as u8
    } else {
        (v / 16777216) as u8
    }
}

/// The little-endian 32-bit value at `off` in `block`.
pub open spec fn u32_at(block: Seq<u8>, off: int) -> u32 {
    (block[off] + 256 * block[off + 1] + 65536 * block[off + 2] + 16777216 * block[off + 3]) as u32
}

/// `block` with the little-endian encoding of `v` at `off`.
pub open spec fn put_u32(block: Seq<u8>, off: int, v: u32) -> Seq<u8> {
    block.update(off, byte_of(v, 0)).update(off + 1, byte_of(v, 1)).update(off + 2, byte_of(v, 2)).update(
        off + 3,
        byte_of(v, 3),
    )
}

/// Reading back an encoded value gives the value; bytes outside the four
/// written ones keep their value.
pub proof fn lemma_put_u32(block: Seq<u8>, off: int, v: u32)
    requires
        0 <= off,
        off + 4 <= block.len(),
    ensures
        u32_at(put_u32(block, off, v), off) == v,
        put_u32(block, off, v).len() == block.len(),
        forall|j: int| 0 <= j < block.len() && (j < off || j >= off + 4) ==> #[trigger] put_u32(block, off, v)[j] == block[j],
{
    let b = put_u32(block, off, v);
    assert(b[off] == byte_of(v, 0));
    assert(b[off + 1] == byte_of(v, 1));
    assert(b[off + 2] == byte_of(v, 2));
    assert(b[off + 3] == byte_of(v, 3));
    let x = v as int;
    assert(x % 256 + 256 * ((x / 256) % 256) + 65536 * ((x / 65536) % 256) + 16777216 * (x / 16777216) == x) by (nonlinear_arith)
        requires 0 <= x < 0x1_0000_0000;
}

/// Encoding a value at one offset keeps the value read at a disjoint offset.
pub proof fn lemma_put_u32_keeps(block: Seq<u8>, off: int, v: u32, other: int)
    requires
        0 <= off,
        off + 4 <= block.len(),
        0 <= other,
        other + 4 <= block.len(),
        other + 4 <= off || off + 4 <= other,
    ensures
        u32_at(put_u32(block, off, v), other) == u32_at(block, other),
{
    lemma_put_u32(block, off, v);
    let b = put_u32(block, off, v);
    assert(b[other] == block[other]);
    assert(b[other + 1] == block[other + 1]);
    assert(b[other + 2] == block[other + 2]);
    assert(b[other + 3] == block[other + 3]);
}

/// Writes `v` little-endian at `off` of block `block_id`, through the cache.
pub fn write_u32(cache: &mut BlockCacheManager, dev: &mut BlockDevice, block_id: usize, off: usize, v: u32)
    requires
        old(cache).wf(old(dev)),
        block_id < old(dev).view().len(),
        off + 4 <= 512,
    ensures
        final(cache).wf(final(dev)),
        final(dev).view().len() == old(dev).view().len(),
        final(cache).view(final(dev)) == old(cache).view(old(dev)).update(
            block_id as int,
            put_u32(old(cache).view(old(dev))[block_id as int], off as int, v),
        ),
{
    let ghost v0 = cache.view(dev);
    assert(((v & 0xff) as u8) == byte_of(v, 0)) by (bit_vector);
    assert((((v >> 8u32) & 0xff) as u8) == byte_of(v, 1)) by (bit_vector);
    assert((((v >> 16u32) & 0xff) as u8) == byte_of(v, 2)) by (bit_vector);
    assert(((v >> 24u32) as u8) == byte_of(v, 3)) by (bit_vector);
    cache.write_byte(dev, block_id, off, (v & 0xff) as u8);
    cache.write_byte(dev, block_id, off + 1, ((v >> 8u32) & 0xff) as u8);
    cache.write_byte(dev, block_id, off + 2, ((v >> 16u32) & 0xff) as u8);
    cache.write_byte(dev, block_id, off + 3, (v >> 24u32) as u8);
    assert(cache.view(dev) =~= v0.update(block_id as int, put_u32(v0[block_id as int], off as int, v)));
}

/// The little-endian value at `off` of block `block_id`, through the cache.
pub fn read_u32(cache: &mut BlockCacheManager, dev: &mut BlockDevice, block_id: usize, off: usize) -> (r: u32)
    requires
        old(cache).wf(old(dev)),
        block_id < old(dev).view().len(),
        off + 4 <= 512,
    ensures
        final(cache).wf(final(dev)),
        final(dev).view().len() == old(dev).view().len(),
        final(cache).view(final(dev)) == old(cache).view(old(dev)),
        r == u32_at(old(cache).view(old(dev))[block_id as int], off as int),
{
    let b0 = cache.read_byte(dev, block_id, off) as u32;
    let b1 = cache.read_byte(dev, block_id, off + 1) as u32;
    let b2 = cache.read_byte(dev, block_id, off + 2) as u32;
    let b3 = cache.read_byte(dev, block_id, off + 3) as u32;
    assert(b0 | (b1 << 8u32) | (b2 << 16u32) | (b3 << 24u32) == b0 + 256 * b1 + 65536 * b2 + 16777216 * b3) by (bit_vector)
        requires b0 < 256, b1 < 256, b2 < 256, b3 < 256;
    b0 | (b1 << 8u32) | (b2 << 16u32) | (b3 << 24u32)
}

/// Block ids held by one index block.
pub const INODE_INDIRECT1_COUNT: u32 = 128;

/// Data blocks reachable through the doubly indirect block.
pub const INODE_INDIRECT2_COUNT: u32 = 16384;

/// Largest file size, in bytes: `(28 + 128 + 128 * 128) * 512`.
pub const MAX_FILE_SIZE: u32 = 8468480;

/// Where the `inner_id`-th data block of an inode is recorded.
#[derive(Clone, Copy, Debug, PartialEq, Eq, Structural)]
pub enum BlockSlot {
    /// Direct pointer `i`.
    Direct(u32),
    /// Entry `i` of the indirect block.
    Indirect1(u32),
    /// Entry `j` of the `i`-th second-level block of the doubly indirect block.
    Indirect2(u32, u32),
}

/// Number of data blocks a file of `size` bytes holds: `⌈size / 512⌉`.
pub open spec fn data_blocks_of(size: int) -> int {
    (size + 511) / 512
}

/// Number of blocks a file of `size` bytes holds, index blocks included.
pub open spec fn total_blocks_of(size: int) -> int {
    let d = data_blocks_of(size);
    if d <= 28 {
        d
    } else if d <= 28 + 128 {
        d + 1
    } else {
        d + 2 + (d - 156 + 127) / 128
    }
}

/// Data blocks of a file of `size` bytes.
pub fn data_blocks(size: u32) -> (r: u32)
    requires
        size <= MAX_FILE_SIZE,
    ensures
        r == data_blocks_of(size as int),
{
    (size + 511) / 512
}

/// Blocks of a file of `size` bytes, its index blocks included.
pub fn total_blocks(size: u32) -> (r: u32)
    requires
        size <= MAX_FILE_SIZE,
    ensures
        r == total_blocks_of(size as int),
{
    let d = data_blocks(size);
    if d <= INODE_DIRECT_COUNT as u32 {
        d
    } else if d <= INODE_DIRECT_COUNT as u32 + INODE_INDIRECT1_COUNT {
        d + 1
    } else {
        d + 2 + (d - 156 + 127) / 128
    }
}

/// Where data block `inner_id` of an inode is recorded: the first 28 in
/// the direct pointers, the next 128 in the indirect block, the rest in the
/// doubly indirect block, 128 per second-level block.
pub fn block_slot(inner_id: u32) -> (r: BlockSlot)
    requires
        inner_id < 28 + 128 + 16384,
    ensures
        inner_id < 28 ==> r == BlockSlot::Direct(inner_id),
        28 <= inner_id < 156 ==> r == BlockSlot::Indirect1((inner_id - 28) as u32),
        156 <= inner_id ==> r == BlockSlot::Indirect2(((inner_id - 156) / 128) as u32, ((inner_id - 156) % 128) as u32),
{
    if inner_id < INODE_DIRECT_COUNT as u32 {
        BlockSlot::Direct(inner_id)
    } else if inner_id < INODE_DIRECT_COUNT as u32 + INODE_INDIRECT1_COUNT {
        BlockSlot::Indirect1(inner_id - 28)
    } else {
        let rest = inner_id - 156;
        BlockSlot::Indirect2(rest / 128, rest % 128)
    }
}

} // verus!