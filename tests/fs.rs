use rcore::bitmap::{decomposition, Bitmap};
use rcore::block_cache::BlockCacheManager;
use rcore::block_dev::BlockDevice;
use rcore::efs::EasyFileSystem;
use rcore::layout::{block_slot, data_blocks, total_blocks, BlockSlot};

fn u32_at(block: &[u8], off: usize) -> u32 {
    u32::from_le_bytes([block[off], block[off + 1], block[off + 2], block[off + 3]])
}

#[test]
fn bitmap_takes_lowest_clear_bit() {
    let mut dev = BlockDevice::new(4);
    let mut cache = BlockCacheManager::new();
    let bm = Bitmap::new(1, 2);
    assert_eq!(bm.maximum(), 8192);
    assert_eq!(bm.allocate(&mut cache, &mut dev), Some(0));
    assert_eq!(bm.allocate(&mut cache, &mut dev), Some(1));
    assert_eq!(bm.allocate(&mut cache, &mut dev), Some(2));
    bm.dealloc(&mut cache, &mut dev, 1);
    assert_eq!(bm.allocate(&mut cache, &mut dev), Some(1));
    assert_eq!(bm.allocate(&mut cache, &mut dev), Some(3));
    cache.sync_all(&mut dev);
    assert_eq!(dev.read_block(1)[0], 0b1111);
    bm.dealloc(&mut cache, &mut dev, 2);
    cache.sync_all(&mut dev);
    assert_eq!(dev.read_block(1)[0], 0b1011);
}

#[test]
fn bitmap_spills_into_next_block_and_fills_up() {
    let mut dev = BlockDevice::new(3);
    let mut cache = BlockCacheManager::new();
    let bm = Bitmap::new(1, 2);
    for i in 0..4096 {
        assert_eq!(bm.allocate(&mut cache, &mut dev), Some(i));
    }
    assert_eq!(bm.allocate(&mut cache, &mut dev), Some(4096));
    let bm_small = Bitmap::new(2, 1);
    let mut n = 1;
    while bm_small.allocate(&mut cache, &mut dev).is_some() {
        n += 1;
    }
    assert_eq!(n, 4096);
    assert_eq!(decomposition(4096 + 130), (1, 2, 2));
}

#[test]
fn cache_writes_reach_disk_after_sync() {
    let mut dev = BlockDevice::new(40);
    let mut cache = BlockCacheManager::new();
    for b in 0..40usize {
        cache.write_byte(&mut dev, b, 7, b as u8 + 1);
    }
    cache.write_byte(&mut dev, 39, 7, 200);
    assert_eq!(cache.read_byte(&mut dev, 3, 7), 4);
    cache.sync_all(&mut dev);
    for b in 0..39usize {
        assert_eq!(dev.read_block(b)[7], b as u8 + 1);
    }
    assert_eq!(dev.read_block(39)[7], 200);
    assert_eq!(dev.read_block(39)[6], 0);
}

#[test]
fn cache_eviction_writes_back_oldest() {
    let mut dev = BlockDevice::new(20);
    let mut cache = BlockCacheManager::new();
    cache.write_byte(&mut dev, 0, 0, 9);
    assert_eq!(dev.read_block(0)[0], 0);
    for b in 1..17usize {
        let _ = cache.read_byte(&mut dev, b, 0);
    }
    assert_eq!(dev.read_block(0)[0], 9);
}

#[test]
fn format_image_s1() {
    let dev = BlockDevice::new(4096);
    let fs = EasyFileSystem::create(dev, 4096, 1);
    let dev = fs.into_device();
    let sb = dev.read_block(0);
    assert_eq!(u32_at(&sb, 0), 0x3b80_0000);
    assert_eq!(u32_at(&sb, 4), 4096);
    assert_eq!(u32_at(&sb, 8), 1);
    assert_eq!(u32_at(&sb, 12), 1024);
    assert_eq!(u32_at(&sb, 16), 1);
    assert_eq!(u32_at(&sb, 20), 3069);
    assert_eq!(dev.read_block(1)[0], 1);
    assert_eq!(u32_at(&dev.read_block(2), 124), 1);
    assert!(EasyFileSystem::is_valid_image(&dev));
    let mut fs = EasyFileSystem::open(dev);
    assert_eq!(fs.alloc_inode(), 1);
    assert_eq!(fs.get_disk_inode_pos(0), (2, 0));
    assert_eq!(fs.get_disk_inode_pos(5), (3, 128));
    assert_eq!(fs.get_data_block_id(0), 1027);
}

#[test]
fn open_rejects_unformatted_image() {
    assert!(!EasyFileSystem::is_valid_image(&BlockDevice::new(8)));
    assert!(!EasyFileSystem::is_valid_image(&BlockDevice::new(0)));
}

#[test]
fn data_blocks_for_600_bytes() {
    let mut fs = EasyFileSystem::create(BlockDevice::new(4096), 4096, 1);
    let needed = data_blocks(600);
    assert_eq!(needed, 2);
    let mut blocks = Vec::new();
    for _ in 0..needed {
        blocks.push(fs.alloc_data());
    }
    assert_eq!(blocks, vec![1027, 1028]);
    fs.sync_all();
    let dev = fs.into_device();
    assert_eq!(dev.read_block(1026)[0], 0b11);
}

#[test]
fn dealloc_data_zeroes_and_frees() {
    let mut fs = EasyFileSystem::create(BlockDevice::new(4096), 4096, 1);
    let b = fs.alloc_data();
    let c = fs.alloc_data();
    assert_eq!((b, c), (1027, 1028));
    fs.dealloc_data(b);
    assert_eq!(fs.alloc_data(), 1027);
    fs.sync_all();
    let dev = fs.into_device();
    assert_eq!(dev.read_block(1026)[0], 0b11);
    assert!(dev.read_block(1027).iter().all(|x| *x == 0));
}

#[test]
fn device_round_trip() {
    let mut dev = BlockDevice::new(2);
    dev.write_block(1, &vec![5u8; 512]);
    assert_eq!(dev.read_block(1), vec![5u8; 512]);
    let blocks = dev.into_blocks();
    assert!(BlockDevice::from_blocks(blocks).is_some());
    assert!(BlockDevice::from_blocks(vec![vec![0u8; 3]]).is_none());
}

#[test]
fn inode_block_arithmetic() {
    assert_eq!(data_blocks(0), 0);
    assert_eq!(data_blocks(512), 1);
    assert_eq!(data_blocks(513), 2);
    assert_eq!(total_blocks(28 * 512), 28);
    assert_eq!(total_blocks(29 * 512), 30);
    assert_eq!(total_blocks(157 * 512), 160);
    assert_eq!(block_slot(3), BlockSlot::Direct(3));
    assert_eq!(block_slot(30), BlockSlot::Indirect1(2));
    assert_eq!(block_slot(156 + 130), BlockSlot::Indirect2(1, 2));
}
