use easy_fs::bitmap::{Bitmap, BLOCK_BITS};
use easy_fs::block_cache::BlockCacheManager;
use easy_fs::block_dev::{BlockDevice, RamDisk};
use easy_fs::BLOCK_SZ;

#[test]
fn one_block_scenario() {
    let mut disk = RamDisk::new(4);
    let mut manager = BlockCacheManager::new();
    let bitmap = Bitmap::new(1, 1);
    assert_eq!(bitmap.allocate(&mut manager, &mut disk), Some(0));
    assert_eq!(bitmap.allocate(&mut manager, &mut disk), Some(1));
    bitmap.dealloc(&mut manager, &mut disk, 0);
    assert_eq!(bitmap.allocate(&mut manager, &mut disk), Some(0));
    for expected in 2..4096usize {
        assert_eq!(bitmap.allocate(&mut manager, &mut disk), Some(expected));
    }
    assert_eq!(bitmap.allocate(&mut manager, &mut disk), None);
}

#[test]
fn allocation_is_in_order_across_blocks() {
    let mut disk = RamDisk::new(3);
    let mut manager = BlockCacheManager::new();
    let bitmap = Bitmap::new(1, 2);
    assert_eq!(bitmap.maximum(), 2 * 4096);
    for expected in 0..bitmap.maximum() {
        assert_eq!(bitmap.allocate(&mut manager, &mut disk), Some(expected));
    }
    assert_eq!(bitmap.allocate(&mut manager, &mut disk), None);
}

#[test]
fn round_trip_returns_freed_bit() {
    let mut disk = RamDisk::new(2);
    let mut manager = BlockCacheManager::new();
    let bitmap = Bitmap::new(0, 2);
    for _ in 0..5000 {
        bitmap.allocate(&mut manager, &mut disk).unwrap();
    }
    bitmap.dealloc(&mut manager, &mut disk, 4321);
    assert_eq!(bitmap.allocate(&mut manager, &mut disk), Some(4321));
    assert_eq!(bitmap.allocate(&mut manager, &mut disk), Some(5000));
}

#[test]
fn lowest_free_bit_wins() {
    let mut disk = RamDisk::new(1);
    let mut manager = BlockCacheManager::new();
    let bitmap = Bitmap::new(0, 1);
    for _ in 0..10 {
        bitmap.allocate(&mut manager, &mut disk).unwrap();
    }
    bitmap.dealloc(&mut manager, &mut disk, 7);
    bitmap.dealloc(&mut manager, &mut disk, 3);
    assert_eq!(bitmap.allocate(&mut manager, &mut disk), Some(3));
    assert_eq!(bitmap.allocate(&mut manager, &mut disk), Some(7));
    assert_eq!(bitmap.allocate(&mut manager, &mut disk), Some(10));
}

#[test]
fn allocations_are_distinct() {
    let mut disk = RamDisk::new(1);
    let mut manager = BlockCacheManager::new();
    let bitmap = Bitmap::new(0, 1);
    let mut seen = vec![false; 4096];
    for _ in 0..300 {
        let b = bitmap.allocate(&mut manager, &mut disk).unwrap();
        assert!(!seen[b]);
        seen[b] = true;
    }
}

#[test]
fn bits_are_stored_little_endian_on_the_medium() {
    let mut disk = RamDisk::new(3);
    let mut manager = BlockCacheManager::new();
    let bitmap = Bitmap::new(2, 1);
    for _ in 0..66 {
        bitmap.allocate(&mut manager, &mut disk).unwrap();
    }
    manager.sync_all(&mut disk);
    let mut buf = vec![0u8; BLOCK_SZ];
    disk.read_block(2, &mut buf);
    assert!(buf[0..8].iter().all(|b| *b == 0xff));
    assert_eq!(buf[8], 0x03);
    assert!(buf[9..].iter().all(|b| *b == 0));
    disk.read_block(1, &mut buf);
    assert!(buf.iter().all(|b| *b == 0));
}

#[test]
fn maximum_counts_bits() {
    assert_eq!(BLOCK_BITS, 4096);
    assert_eq!(Bitmap::new(5, 0).maximum(), 0);
    assert_eq!(Bitmap::new(5, 3).maximum(), 12288);
}

#[test]
fn empty_bitmap_has_no_space() {
    let mut disk = RamDisk::new(1);
    let mut manager = BlockCacheManager::new();
    let bitmap = Bitmap::new(0, 0);
    assert_eq!(bitmap.allocate(&mut manager, &mut disk), None);
}

#[test]
fn bitmap_survives_a_fresh_cache() {
    let mut disk = RamDisk::new(1);
    let bitmap = Bitmap::new(0, 1);
    {
        let mut manager = BlockCacheManager::new();
        for _ in 0..3 {
            bitmap.allocate(&mut manager, &mut disk).unwrap();
        }
        manager.sync_all(&mut disk);
    }
    let mut manager = BlockCacheManager::new();
    assert_eq!(bitmap.allocate(&mut manager, &mut disk), Some(3));
}
