//! The easy-fs disk layout: super block, inode bitmap, inode area, data
//! bitmap and data area, in that order.
use vstd::prelude::*;
use crate::bitmap::{is_set, lemma_small_bytes, with_bit_clear, with_bit_set, Bitmap};
use crate::block_cache::BlockCacheManager;
use crate::block_dev::BlockDevice;
use crate::layout::{
    lemma_put_u32, lemma_put_u32_keeps, put_u32, read_u32, u32_at, write_u32, DISK_INODE_DIRECTORY, DISK_INODE_SIZE, EFS_MAGIC,
    INODES_PER_BLOCK, INODE_TYPE_OFFSET,
};

verus! {

/// Sizes, in blocks, of the regions of an image of `total` blocks with `ib`
/// inode-bitmap blocks: `(inode area, data bitmap, data area)`.
pub open spec fn region_sizes(total: int, ib: int) -> (int, int, int) {
    let ia = (ib * 4096 * 128 + 511) / 512;
    let data_total = total - 1 - ib - ia;
    let db = (data_total + 4096) / 4097;
    (ia, db, data_total - db)
}

/// Whether an image of `total` blocks can hold `ib` inode-bitmap blocks with
/// room left for data, with every block number and bit count in range.
pub open spec fn layout_fits(total: int, ib: int) -> bool {
    &&& 1 + ib + region_sizes(total, ib).0 <= total
    &&& ib >= 1
    &&& total <= u32::MAX
    &&& 1 + ib + region_sizes(total, ib).0 + region_sizes(total, ib).1 * 4097 <= u32::MAX
    &&& ib * 4096 <= u32::MAX
    &&& total * 4096 <= usize::MAX
}

/// A zeroed block.
pub open spec fn zeros() -> Seq<u8> {
    Seq::new(512, |i: int| 0u8)
}

/// The super block of an image of `total` blocks with `ib` inode-bitmap blocks.
pub open spec fn super_block_bytes(total: int, ib: int) -> Seq<u8> {
    let (ia, db, da) = region_sizes(total, ib);
    put_u32(
        put_u32(
            put_u32(
                put_u32(put_u32(put_u32(zeros(), 0, EFS_MAGIC), 4, total as u32), 8, ib as u32),
                12,
                ia as u32,
            ),
            16,
            db as u32,
        ),
        20,
        da as u32,
    )
}

/// The image that formatting `total` blocks of `disk` with `ib` inode-bitmap
/// blocks produces: the super block, inode 0 taken, inode 0 a directory, every
/// other block of the first `total` zeroed, and the blocks past them kept.
pub open spec fn formatted(disk: Seq<Seq<u8>>, total: int, ib: int) -> Seq<Seq<u8>> {
    Seq::new(
        disk.len(),
        |b: int|
            if b >= total {
                disk[b]
            } else if b == 0 {
                super_block_bytes(total, ib)
            } else if b == 1 {
                zeros().update(0, 1u8)
            } else if b == 1 + ib {
                put_u32(zeros(), INODE_TYPE_OFFSET as int, DISK_INODE_DIRECTORY)
            } else {
                zeros()
            },
    )
}

/// Whether `sb` is a valid super block for a device of `n` blocks: the magic
/// number matches and the regions it records fit the device, with every block
/// number and bit count in range.
pub open spec fn super_block_ok(sb: Seq<u8>, n: int) -> bool {
    let ib = u32_at(sb, 8) as int;
    let ia = u32_at(sb, 12) as int;
    let db = u32_at(sb, 16) as int;
    &&& u32_at(sb, 0) == EFS_MAGIC
    &&& ia >= ib * 1024
    &&& 1 + ib + ia + db <= n
    &&& 1 + ib + ia + db + db * 4096 <= u32::MAX
    &&& ib * 4096 <= u32::MAX
    &&& ib * 4096 <= usize::MAX
    &&& db * 4096 <= usize::MAX
}

/// The little-endian value at `off` of `block`.
fn le_u32(block: &Vec<u8>, off: usize) -> (r: u32)
    requires
        off + 4 <= block@.len(),
    ensures
        r == u32_at(block@, off as int),
{
    let n = block.len();
    assert(off + 4 <= n);
    let b0 = block[off] as u32;
    let b1 = block[off + 1] as u32;
    let b2 = block[off + 2] as u32;
    let b3 = block[off + 3] as u32;
    assert(b0 | (b1 << 8u32) | (b2 << 16u32) | (b3 << 24u32) == b0 + 256 * b1 + 65536 * b2 + 16777216 * b3) by (bit_vector)
        requires b0 < 256, b1 < 256, b2 < 256, b3 < 256;
    b0 | (b1 << 8u32) | (b2 << 16u32) | (b3 << 24u32)
}

/// An easy-fs file system on a block device, accessed through a block cache.
pub struct EasyFileSystem {
    device: BlockDevice,
    cache: BlockCacheManager,
    inode_bitmap: Bitmap,
    data_bitmap: Bitmap,
    inode_area_start_block: u32,
    data_area_start_block: u32,
}

impl EasyFileSystem {
    /// The disk as seen through the cache.
    pub closed spec fn view(&self) -> Seq<Seq<u8>> {
        self.cache.view(&self.device)
    }

    /// The device below the cache.
    pub closed spec fn disk(&self) -> Seq<Seq<u8>> {
        self.device.view()
    }

    /// The inode bitmap.
    pub closed spec fn inode_map(&self) -> Bitmap {
        self.inode_bitmap
    }

    /// The data bitmap.
    pub closed spec fn data_map(&self) -> Bitmap {
        self.data_bitmap
    }

    /// First block of the inode area.
    pub closed spec fn inode_area_start(&self) -> u32 {
        self.inode_area_start_block
    }

    /// First block of the data area.
    pub closed spec fn data_area_start(&self) -> u32 {
        self.data_area_start_block
    }

    /// The regions lie in order inside the device, every inode id has its
    /// slot in the inode area, and every data block number fits in 32 bits.
    pub open spec fn wf(&self) -> bool {
        let n = self.view().len() as int;
        &&& self.wf_cache()
        &&& self.inode_map().start() == 1
        &&& self.inode_map().fits(n)
        &&& self.data_map().fits(n)
        &&& self.inode_area_start() == 1 + self.inode_map().len()
        &&& self.inode_area_start() + self.inode_map().len() * 1024 <= self.data_map().start()
        &&& self.data_area_start() == self.data_map().start() + self.data_map().len()
        &&& self.data_area_start() <= n
        &&& self.data_area_start() + self.data_map().max_bits() <= u32::MAX
        &&& self.inode_map().max_bits() <= u32::MAX
    }

    /// The cache is consistent with the device.
    pub closed spec fn wf_cache(&self) -> bool {
        &&& self.cache.wf(&self.device)
        &&& self.view().len() == self.disk().len()
    }

    /// Formats the first `total_blocks` blocks of `device`: zeroes them, writes
    /// the super block, takes inode 0 and makes it the root directory, and
    /// writes everything back.
    pub fn create(device: BlockDevice, total_blocks: u32, inode_bitmap_blocks: u32) -> (r: EasyFileSystem)
        requires
            device.wf(),
            total_blocks <= device.view().len(),
            layout_fits(total_blocks as int, inode_bitmap_blocks as int),
        ensures
            r.wf(),
            r.disk() == r.view(),
            r.view() == formatted(device.view(), total_blocks as int, inode_bitmap_blocks as int),
            r.inode_map().start() == 1,
            r.inode_map().len() == inode_bitmap_blocks,
            r.inode_area_start() == 1 + inode_bitmap_blocks,
            r.data_map().start() == 1 + inode_bitmap_blocks + region_sizes(total_blocks as int, inode_bitmap_blocks as int).0,
            r.data_map().len() == region_sizes(total_blocks as int, inode_bitmap_blocks as int).1,
    {
        let ghost total = total_blocks as int;
        let ghost ibg = inode_bitmap_blocks as int;
        let ib = inode_bitmap_blocks;
        let inode_area_blocks = ((ib as u64 * 4096 * 128 + 511) / 512) as u32;
        let inode_total_blocks = ib + inode_area_blocks;
        let data_total_blocks = total_blocks - 1 - inode_total_blocks;
        let data_bitmap_blocks = (data_total_blocks + 4096) / 4097;
        let data_area_blocks = data_total_blocks - data_bitmap_blocks;
        assert(inode_area_blocks == ibg * 1024);
        let inode_bitmap = Bitmap::new(1, ib as usize);
        let data_bitmap = Bitmap::new((1 + inode_total_blocks) as usize, data_bitmap_blocks as usize);
        let mut device = device;
        let ghost d0 = device.view();
        let mut cache = BlockCacheManager::new();
        assert(cache.view(&device) == d0);
        let mut i: u32 = 0;
        while i < total_blocks
            invariant
                i <= total_blocks,
                total_blocks <= d0.len(),
                cache.wf(&device),
                device.view().len() == d0.len(),
                cache.view(&device) == Seq::new(
                    d0.len(),
                    |b: int| if b < i { zeros() } else { d0[b] },
                ),
            decreases total_blocks - i,
        {
            let ghost v = cache.view(&device);
            cache.zero_block(&mut device, i as usize);
            i = i + 1;
            assert(cache.view(&device) =~= Seq::new(d0.len(), |b: int| if b < i { zeros() } else { d0[b] }));
        }
        let ghost v1 = cache.view(&device);
        write_u32(&mut cache, &mut device, 0, 0, EFS_MAGIC);
        write_u32(&mut cache, &mut device, 0, 4, total_blocks);
        write_u32(&mut cache, &mut device, 0, 8, ib);
        write_u32(&mut cache, &mut device, 0, 12, inode_area_blocks);
        write_u32(&mut cache, &mut device, 0, 16, data_bitmap_blocks);
        write_u32(&mut cache, &mut device, 0, 20, data_area_blocks);
        let ghost v2 = cache.view(&device);
        assert(v2 =~= v1.update(0, super_block_bytes(total, ibg)));
        let mut efs = EasyFileSystem {
            device,
            cache,
            inode_bitmap,
            data_bitmap,
            inode_area_start_block: 1 + ib,
            data_area_start_block: 1 + inode_total_blocks + data_bitmap_blocks,
        };
        assert(efs.data_area_start() + efs.data_map().max_bits() <= u32::MAX);
        assert(efs.wf());
        proof {
            lemma_small_bytes(0);
            assert(efs.view()[1] == zeros());
            assert(!is_set(efs.view(), 1, 0));
        }
        let root = efs.alloc_inode();
        let ghost v3 = efs.view();
        proof {
            let b = root as int;
            if b > 0 {
                assert(is_set(v2, 1, 0));
            }
            assert(v3 =~= v2.update(1, zeros().update(0, 1u8)));
        }
        let (root_block, root_offset) = efs.get_disk_inode_pos(0);
        write_u32(&mut efs.cache, &mut efs.device, root_block as usize, root_offset + INODE_TYPE_OFFSET, DISK_INODE_DIRECTORY);
        efs.sync_all();
        assert(efs.view() =~= formatted(d0, total, ibg));
        efs
    }

    /// Whether block 0 of `device` is a valid super block for it.
    pub fn is_valid_image(device: &BlockDevice) -> (r: bool)
        requires
            device.wf(),
        ensures
            r == (device.view().len() > 0 && super_block_ok(device.view()[0], device.view().len() as int)),
    {
        let n = device.num_blocks();
        if n == 0 {
            return false;
        }
        let sb = device.read_block(0);
        let magic = le_u32(&sb, 0);
        let ib = le_u32(&sb, 8);
        let ia = le_u32(&sb, 12);
        let db = le_u32(&sb, 16);
        if magic != EFS_MAGIC || (ia as u64) < ib as u64 * 1024 {
            return false;
        }
        let data_start: u64 = 1 + ib as u64 + ia as u64 + db as u64;
        !(data_start > n as u64 || data_start + db as u64 * 4096 > 0xffff_ffff
            || ib as u64 * 4096 > 0xffff_ffff || ib as u64 * 4096 > usize::MAX as u64 || db as u64 * 4096 > usize::MAX as u64)
    }

    /// Opens the file system on `device`, whose block 0 must be a valid super
    /// block for it (`is_valid_image`).
    pub fn open(device: BlockDevice) -> (r: EasyFileSystem)
        requires
            device.wf(),
            device.view().len() > 0,
            super_block_ok(device.view()[0], device.view().len() as int),
        ensures
            ({
                let fs = r;
                let sb = device.view()[0];
                &&& fs.wf()
                &&& fs.view() == device.view()
                &&& fs.inode_map().start() == 1
                &&& fs.inode_map().len() == u32_at(sb, 8)
                &&& fs.inode_area_start() == 1 + u32_at(sb, 8)
                &&& fs.data_map().start() == 1 + u32_at(sb, 8) + u32_at(sb, 12)
                &&& fs.data_map().len() == u32_at(sb, 16)
            }),
    {
        let mut device = device;
        let n = device.num_blocks();
        let mut cache = BlockCacheManager::new();
        let ghost d0 = device.view();
        let ib = read_u32(&mut cache, &mut device, 0, 8);
        let ia = read_u32(&mut cache, &mut device, 0, 12);
        let db = read_u32(&mut cache, &mut device, 0, 16);
        let fs = EasyFileSystem {
            device,
            cache,
            inode_bitmap: Bitmap::new(1, ib as usize),
            data_bitmap: Bitmap::new((1 + ib + ia) as usize, db as usize),
            inode_area_start_block: 1 + ib,
            data_area_start_block: (1 + ib + ia + db),
        };
        assert(fs.view() == d0);
        assert(fs.wf_cache());
        assert(fs.inode_map().fits(n as int));
        assert(fs.data_map().fits(n as int));
        fs
    }

    /// The device, with what the cache has not written back left out.
    pub fn into_device(self) -> (r: BlockDevice)
        ensures
            r.view() == self.disk(),
    {
        self.device
    }

    /// Block and byte offset of the disk inode of `inode_id`.
    pub fn get_disk_inode_pos(&self, inode_id: u32) -> (r: (u32, usize))
        requires
            self.wf(),
            inode_id < self.inode_map().max_bits(),
        ensures
            r.0 == self.inode_area_start() + inode_id / 4,
            r.1 == (inode_id % 4) * 128,
            r.0 < self.data_map().start(),
    {
        let inodes_per_block = INODES_PER_BLOCK;
        let block_id = self.inode_area_start_block + inode_id / inodes_per_block;
        (block_id, (inode_id % inodes_per_block) as usize * DISK_INODE_SIZE)
    }

    /// Device block number of data-bitmap bit `data_block_id`.
    pub fn get_data_block_id(&self, data_block_id: u32) -> (r: u32)
        requires
            self.wf(),
            data_block_id < self.data_map().max_bits(),
        ensures
            r == self.data_area_start() + data_block_id,
    {
        self.data_area_start_block + data_block_id
    }

    /// Takes the lowest free inode id; some inode id must be free.
    pub fn alloc_inode(&mut self) -> (r: u32)
        requires
            old(self).wf(),
            exists|b: int| 0 <= b < old(self).inode_map().max_bits() && !is_set(old(self).view(), 1, b),
        ensures
            final(self).wf(),
            final(self).inode_map() == old(self).inode_map(),
            final(self).data_map() == old(self).data_map(),
            ({
                let b = r as int;
                &&& b < old(self).inode_map().max_bits()
                &&& !is_set(old(self).view(), 1, b)
                &&& forall|c: int| 0 <= c < b ==> is_set(old(self).view(), 1, c)
                &&& final(self).view() == with_bit_set(old(self).view(), 1, b)
            }),
    {
        let r = self.inode_bitmap.allocate(&mut self.cache, &mut self.device);
        match r {
            None => {
                assert(false);
                0
            },
            Some(b) => b as u32,
        }
    }

    /// Takes the lowest free data block and returns its device block number;
    /// some data block must be free.
    pub fn alloc_data(&mut self) -> (r: u32)
        requires
            old(self).wf(),
            exists|b: int| 0 <= b < old(self).data_map().max_bits() && !is_set(old(self).view(), old(self).data_map().start() as int, b),
        ensures
            final(self).wf(),
            final(self).inode_map() == old(self).inode_map(),
            final(self).data_map() == old(self).data_map(),
            ({
                let b = r - old(self).data_area_start();
                &&& old(self).data_area_start() <= r
                &&& b < old(self).data_map().max_bits()
                &&& !is_set(old(self).view(), old(self).data_map().start() as int, b)
                &&& forall|c: int| 0 <= c < b ==> is_set(old(self).view(), old(self).data_map().start() as int, c)
                &&& final(self).view() == with_bit_set(old(self).view(), old(self).data_map().start() as int, b)
            }),
    {
        let r = self.data_bitmap.allocate(&mut self.cache, &mut self.device);
        match r {
            None => {
                assert(false);
                0
            },
            Some(b) => b as u32 + self.data_area_start_block,
        }
    }

    /// Zeroes data block `block_id` and then frees its bit, which must be set.
    pub fn dealloc_data(&mut self, block_id: u32)
        requires
            old(self).wf(),
            old(self).data_area_start() <= block_id,
            (block_id as int) < old(self).view().len(),
            block_id - old(self).data_area_start() < old(self).data_map().max_bits(),
            is_set(old(self).view(), old(self).data_map().start() as int, block_id - old(self).data_area_start()),
        ensures
            final(self).wf(),
            final(self).inode_map() == old(self).inode_map(),
            final(self).data_map() == old(self).data_map(),
            final(self).view() == with_bit_clear(
                old(self).view().update(block_id as int, Seq::new(512, |i: int| 0u8)),
                old(self).data_map().start() as int,
                block_id - old(self).data_area_start(),
            ),
    {
        let ghost bit = block_id - self.data_area_start_block;
        self.cache.zero_block(&mut self.device, block_id as usize);
        assert(self.data_bitmap.start() + bit / 4096 < self.data_area_start_block) by (nonlinear_arith)
            requires self.data_bitmap.start() + self.data_bitmap.len() == self.data_area_start_block,
                bit < self.data_bitmap.len() * 4096, bit >= 0;
        self.data_bitmap.dealloc(&mut self.cache, &mut self.device, (block_id - self.data_area_start_block) as usize);
    }

    /// Writes every dirty cached block back to the device.
    pub fn sync_all(&mut self)
        requires
            old(self).wf(),
        ensures
            final(self).wf(),
            final(self).view() == old(self).view(),
            final(self).disk() == old(self).view(),
            final(self).inode_map() == old(self).inode_map(),
            final(self).data_map() == old(self).data_map(),
    {
        self.cache.sync_all(&mut self.device);
    }
}

} // verus!
