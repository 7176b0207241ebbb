use snd_review::block_cache::{block_position, BlockCache, BlockKey, BLOCK_FRAMES, RAM_CACHE_BYTES};

fn key(block_index: u64) -> BlockKey {
    BlockKey { media_id: 1, block_index }
}

fn evicted_keys(evicted: &[snd_review::block_cache::CacheEntry<&'static str>]) -> Vec<u64> {
    evicted.iter().map(|e| e.key.block_index).collect()
}

#[test]
fn least_recently_used_blocks_leave_first() {
    let mut cache: BlockCache<&'static str> = BlockCache::with_cache_bytes(100);
    assert!(cache.insert(key(0), "a", 40).is_empty());
    assert!(cache.insert(key(1), "b", 40).is_empty());
    assert!(cache.touch(key(0)));
    let out = cache.insert(key(2), "c", 40);
    assert_eq!(evicted_keys(&out), vec![1]);
    assert_eq!(cache.ram_bytes(), 80);
    assert_eq!(cache.block(key(0)), Some(&"a"));
    assert_eq!(cache.block(key(1)), None);
    assert!(!cache.touch(key(1)));
}

#[test]
fn replacing_a_block_frees_its_old_bytes() {
    let mut cache: BlockCache<&'static str> = BlockCache::with_cache_bytes(100);
    cache.insert(key(0), "a", 60);
    assert!(cache.insert(key(0), "a2", 90).is_empty());
    assert_eq!(cache.ram_bytes(), 90);
    assert_eq!(cache.len(), 1);
    assert_eq!(cache.block(key(0)), Some(&"a2"));
}

#[test]
fn an_oversized_block_pushes_everything_out_but_stays() {
    let mut cache: BlockCache<&'static str> = BlockCache::with_cache_bytes(0);
    assert!(cache.insert(key(0), "a", 10).is_empty());
    let out = cache.insert(key(1), "b", 10);
    assert_eq!(evicted_keys(&out), vec![0]);
    assert_eq!(cache.len(), 1);
    let default: BlockCache<&'static str> = BlockCache::in_memory();
    assert_eq!(default.ram_bytes(), 0);
    assert_eq!(RAM_CACHE_BYTES, 16 * 1024 * 1024);
}

#[test]
fn frames_map_to_blocks() {
    assert_eq!(block_position(0), (0, 0));
    assert_eq!(block_position(BLOCK_FRAMES + 5), (1, 5));
    assert_eq!(block_position(3 * BLOCK_FRAMES - 1), (2, BLOCK_FRAMES as usize - 1));
}
