use easy_fs::block_cache::{BlockCache, BlockCacheManager, BLOCK_CACHE_SIZE};
use easy_fs::block_dev::{BlockDevice, RamDisk};
use easy_fs::BLOCK_SZ;

#[test]
fn ram_disk_round_trip() {
    let mut disk = RamDisk::new(3);
    assert_eq!(disk.num_blocks(), 3);
    let data: Vec<u8> = (0..BLOCK_SZ).map(|i| (i % 251) as u8).collect();
    disk.write_block(1, &data);
    let mut buf = vec![0u8; BLOCK_SZ];
    disk.read_block(1, &mut buf);
    assert_eq!(buf, data);
    disk.read_block(0, &mut buf);
    assert!(buf.iter().all(|b| *b == 0));
}

#[test]
fn entry_loads_writes_and_syncs() {
    let mut disk = RamDisk::new(2);
    let mut cache = BlockCache::new(1, &disk);
    assert_eq!(cache.block_id(), 1);
    assert!(!cache.is_modified());
    assert_eq!(cache.read_u64(8), 0);
    cache.write_u64(8, 0x0102_0304_0506_0708);
    assert!(cache.is_modified());
    assert_eq!(cache.read_u64(8), 0x0102_0304_0506_0708);
    assert_eq!(cache.get_ref()[8], 0x08);
    assert_eq!(cache.get_ref()[15], 0x01);
    let mut buf = vec![0u8; BLOCK_SZ];
    disk.read_block(1, &mut buf);
    assert_eq!(buf[8], 0);
    cache.sync(&mut disk);
    assert!(!cache.is_modified());
    disk.read_block(1, &mut buf);
    assert_eq!(&buf[8..16], &[8, 7, 6, 5, 4, 3, 2, 1]);
}

#[test]
fn clean_entry_sync_writes_nothing() {
    let mut disk = RamDisk::new(1);
    let mut cache = BlockCache::new(0, &disk);
    let data = vec![9u8; BLOCK_SZ];
    disk.write_block(0, &data);
    cache.sync(&mut disk);
    let mut buf = vec![0u8; BLOCK_SZ];
    disk.read_block(0, &mut buf);
    assert_eq!(buf, data);
}

#[test]
fn reacquired_block_shows_the_write() {
    let mut disk = RamDisk::new(4);
    let mut manager = BlockCacheManager::new();
    manager.get_block_cache(2, &mut disk);
    manager.write_u64(2, 16, 42);
    manager.release(2);
    manager.get_block_cache(2, &mut disk);
    assert_eq!(manager.len(), 1);
    assert_eq!(manager.read_u64(2, 16), 42);
    manager.release(2);
    let mut buf = vec![0u8; BLOCK_SZ];
    disk.read_block(2, &mut buf);
    assert_eq!(buf[16], 0);
}

#[test]
fn flushed_data_reaches_a_fresh_cache() {
    let mut disk = RamDisk::new(4);
    let mut manager = BlockCacheManager::new();
    for id in 0..4usize {
        manager.get_block_cache(id, &mut disk);
        manager.write_u64(id, 0, 1000 + id as u64);
        manager.release(id);
    }
    manager.sync_all(&mut disk);
    let mut fresh = BlockCacheManager::new();
    for id in 0..4usize {
        fresh.get_block_cache(id, &mut disk);
        assert_eq!(fresh.read_u64(id, 0), 1000 + id as u64);
        fresh.release(id);
    }
}

#[test]
fn held_entries_exhaust_the_table() {
    let mut disk = RamDisk::new(40);
    let mut manager = BlockCacheManager::new();
    assert_eq!(BLOCK_CACHE_SIZE, 16);
    for id in 0..16usize {
        assert!(manager.can_acquire(id));
        manager.get_block_cache(id, &mut disk);
    }
    assert_eq!(manager.len(), 16);
    assert!(!manager.can_acquire(16));
    assert!(manager.can_acquire(5));
    manager.release(5);
    assert!(manager.can_acquire(16));
}

#[test]
fn eviction_takes_first_unheld_entry_and_writes_it_back() {
    let mut disk = RamDisk::new(40);
    let mut manager = BlockCacheManager::new();
    for id in 0..16usize {
        manager.get_block_cache(id, &mut disk);
        manager.write_u64(id, 0, id as u64 + 1);
    }
    manager.release(9);
    manager.release(3);
    manager.get_block_cache(20, &mut disk);
    assert_eq!(manager.len(), 16);
    let mut buf = vec![0u8; BLOCK_SZ];
    disk.read_block(3, &mut buf);
    assert_eq!(buf[0], 4);
    disk.read_block(9, &mut buf);
    assert_eq!(buf[0], 0);
    assert!(manager.can_acquire(9));
    manager.release(20);
    manager.get_block_cache(3, &mut disk);
    assert_eq!(manager.read_u64(3, 0), 4);
}

#[test]
fn shared_block_is_loaded_once() {
    let mut disk = RamDisk::new(2);
    let mut manager = BlockCacheManager::new();
    manager.get_block_cache(1, &mut disk);
    manager.get_block_cache(1, &mut disk);
    assert_eq!(manager.len(), 1);
    assert_eq!(manager.holders(1), 2);
    assert_eq!(manager.holders(0), 0);
    manager.release(1);
    manager.release(1);
    assert_eq!(manager.len(), 1);
}
