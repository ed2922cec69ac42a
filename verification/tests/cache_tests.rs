use cachesim::hierarchy::{CacheSpec, Hierarchy};
use cachesim::lru_cache::{span_to_blocks, Access, LruCache};

#[test]
fn test_addrs() {
    let blocks = |block_size, addr, num_bytes| -> Vec<usize> {
        span_to_blocks(block_size, addr, num_bytes).into_iter().collect()
    };

    assert_eq!(blocks(4096, 1, 1), [0]);
    assert_eq!(blocks(4096, 1, 4097), [0, 4096]);
    assert_eq!(blocks(4096, 4096, 4097), [4096, 4096 * 2]);
    assert_eq!(blocks(4096, 2048, 1), [0]);
    assert_eq!(blocks(4096, 2048, 4096 * 2 + 2), [0, 4096, 4096 * 2]);
}

#[test]
fn access_bitand() {
    assert_eq!(Access::Hit.bitand(Access::Hit), Access::Hit);
    assert_eq!(Access::Hit.bitand(Access::Miss), Access::Miss);
    assert_eq!(Access::Miss.bitand(Access::Hit), Access::Miss);
    assert_eq!(Access::Miss.bitand(Access::Miss), Access::Miss);
}

#[test]
fn lru_hit_after_access() {
    let mut c = LruCache::new(2, 64);
    assert_eq!(c.access_or_pin(100, false), Access::Miss);
    assert_eq!(c.access_or_pin(100, false), Access::Hit);
    assert_eq!(c.accs(), 2);
    assert_eq!(c.hits(), 1);
    assert_eq!(c.misses(), 1);
    assert!(c.is_cached(100));
}

#[test]
fn lru_evicts_least_recently_used() {
    let mut c = LruCache::new(2, 64);
    c.access_or_pin(1, false);
    c.access_or_pin(2, false);
    // touch 1 so that 2 is the least recently used
    assert_eq!(c.access_or_pin(1, false), Access::Hit);
    assert_eq!(c.access_or_pin(3, false), Access::Miss);
    assert!(c.is_cached(1));
    assert!(!c.is_cached(2));
    assert!(c.is_cached(3));
}

#[test]
fn lru_pinned_block_stays() {
    let mut c = LruCache::new(2, 64);
    assert_eq!(c.access_or_pin(1, true), Access::Miss);
    assert_eq!(c.num_pinned(), 1);
    c.access_or_pin(2, false);
    c.access_or_pin(3, false);
    c.access_or_pin(4, false);
    // 1 is pinned: only the other node was replaced
    assert!(c.is_cached(1));
    assert!(c.is_cached(4));
    assert!(!c.is_cached(3));
    // with the only unpinned node taken, a pinned cache of one node cannot miss
    let mut d = LruCache::new(1, 64);
    d.access_or_pin(5, true);
    assert!(!d.can_access(6));
    assert!(d.can_access(5));
    d.unpin(5);
    assert_eq!(d.num_pinned(), 0);
    assert!(d.can_access(6));
}

#[test]
fn lru_pin_then_unpin() {
    let mut c = LruCache::new(3, 64);
    c.access_or_pin(7, true);
    // a second hit on a pinned block pins it once more
    assert_eq!(c.access_or_pin(7, true), Access::Hit);
    c.unpin(7);
    assert_eq!(c.num_pinned(), 1);
    c.unpin(7);
    assert_eq!(c.num_pinned(), 0);
    // unpinning an unpinned or absent block changes nothing
    c.unpin(7);
    c.unpin(99);
    assert_eq!(c.num_pinned(), 0);
    assert!(c.is_cached(7));
}

#[test]
fn lru_addresses() {
    let mut c = LruCache::new(4, 64);
    // 100 bytes from 1020 touch blocks 960, 1024 and 1088
    assert_eq!(c.access_or_pin_addr(1020, 100, false), Access::Miss);
    assert_eq!(c.accs(), 3);
    assert!(c.is_cached(960) && c.is_cached(1024) && c.is_cached(1088));
    assert_eq!(c.access_or_pin_addr(1030, 10, false), Access::Hit);
    assert_eq!(c.accs(), 4);
    assert_eq!(c.hits(), 1);
    c.access_or_pin_addr(960, 64, true);
    assert_eq!(c.num_pinned(), 0, "a hit does not pin");
    c.access_or_pin_addr(4096, 1, true);
    assert_eq!(c.num_pinned(), 1);
    c.unpin_addr(4096, 1);
    assert_eq!(c.num_pinned(), 0);
}

#[test]
fn lru_unused_nodes_hold_block_zero() {
    // every node starts out holding block 0 without it being cached, so the
    // first replacement of a fresh node drops block 0 from the cache
    let mut c = LruCache::new(4, 64);
    c.access_or_pin(0, false);
    assert!(c.is_cached(0));
    c.access_or_pin(64, false);
    assert!(!c.is_cached(0));
    assert!(c.is_cached(64));
}

#[test]
fn lru_reset() {
    let mut c = LruCache::new(2, 32);
    c.access_or_pin(1, true);
    c.access_or_pin(2, false);
    c.reset();
    assert_eq!(c.accs(), 0);
    assert_eq!(c.hits(), 0);
    assert_eq!(c.num_pinned(), 0);
    assert!(!c.is_cached(1));
    assert!(!c.is_cached(2));
    assert_eq!(c.num_blocks(), 2);
    assert_eq!(c.blocksize(), 32);
    assert_eq!(c.access_or_pin(1, false), Access::Miss);
}

fn specs(levels: &[(usize, usize, bool)]) -> Vec<CacheSpec> {
    levels
        .iter()
        .map(|&(num_blocks, block_size, inclusive)| CacheSpec { num_blocks, block_size, inclusive })
        .collect()
}

#[test]
fn hierarchy_counts_at_first_level() {
    let mut h = Hierarchy::new(specs(&[(2, 64, true), (8, 64, true)]));
    assert_eq!(h.num_levels(), 2);
    assert_eq!(h.access_addr(0, 8), Access::Miss);
    assert_eq!(h.access_addr(8, 8), Access::Hit);
    assert_eq!(h.accs(), 2);
    // inclusive levels: the second level saw both accesses and hit once
    let stats = h.stats();
    assert_eq!(stats.len(), 2);
    assert_eq!((stats[0].accesses, stats[0].hits), (2, 1));
    assert_eq!((stats[1].accesses, stats[1].hits), (2, 1));
    assert_eq!(h.hits(), 2);
    assert_eq!(stats[1].num_blocks, 8);
    assert_eq!(stats[1].blocksize, 64);
    assert!(stats[1].inclusive);
}

#[test]
fn hierarchy_exclusive_hit_stops() {
    let mut h = Hierarchy::new(specs(&[(2, 64, false), (8, 64, true)]));
    h.access_addr(0, 8);
    h.access_addr(0, 8);
    let stats = h.stats();
    // the second access hit the first level, which is not inclusive
    assert_eq!((stats[0].accesses, stats[0].hits), (2, 1));
    assert_eq!((stats[1].accesses, stats[1].hits), (1, 0));
}

#[test]
fn hierarchy_larger_blocks_stop() {
    // a hit at a level with larger blocks than the next ends the access
    let mut h = Hierarchy::new(specs(&[(2, 128, true), (8, 64, true)]));
    assert_eq!(h.access_or_pin(0, false), Access::Miss);
    assert_eq!(h.access_or_pin(0, false), Access::Hit);
    let stats = h.stats();
    assert_eq!((stats[0].accesses, stats[0].hits), (2, 1));
    assert_eq!((stats[1].accesses, stats[1].hits), (1, 0));
}

#[test]
fn hierarchy_pin_unpin_reset() {
    let mut h = Hierarchy::new(specs(&[(1, 64, true), (2, 64, true)]));
    h.access_or_pin(5, true);
    assert!(!h.can_access(6));
    h.unpin(5);
    assert!(h.can_access(6));
    h.access_or_pin_addr(0, 16, true);
    h.unpin_addr(0, 16);
    assert!(h.can_access(6));
    h.reset();
    assert_eq!(h.accs(), 0);
    assert_eq!(h.hits(), 0);
    assert!(h.stats().iter().all(|s| s.accesses == 0 && s.hits == 0));
}

#[test]
fn lru_run_to_end_reads_each_block() {
    let mut c = LruCache::new(2, 64);
    c.run_to_end(&vec![1, 2, 1, 3, 2]);
    // 1 miss, 2 miss, 1 hit, 3 evicts 2, 2 misses and evicts 1
    assert_eq!(c.accs(), 5);
    assert_eq!(c.hits(), 1);
    assert!(c.is_cached(2));
    assert!(c.is_cached(3));
    assert!(!c.is_cached(1));
    assert_eq!(c.access(3), Access::Hit);
}

#[test]
fn lru_pin_addr_holds_the_blocks() {
    let mut c = LruCache::new(2, 64);
    assert_eq!(c.pin_addr(72, 8), Access::Miss);
    assert_eq!(c.num_pinned(), 1);
    // blocks 64 (pinned once more) and 128
    assert_eq!(c.pin_addr(124, 8), Access::Miss);
    assert_eq!(c.num_pinned(), 2);
    c.unpin_addr(72, 8);
    assert_eq!(c.num_pinned(), 2);
    c.unpin_addr(64, 8);
    assert_eq!(c.num_pinned(), 1);
    assert_eq!(c.access_addr(64, 8), Access::Hit);
}

#[test]
fn hierarchy_run_to_end_and_misses() {
    let mut h = Hierarchy::new(vec![
        CacheSpec { num_blocks: 2, block_size: 64, inclusive: true },
        CacheSpec { num_blocks: 8, block_size: 64, inclusive: false },
    ]);
    h.run_to_end(&vec![64, 128, 192, 64]);
    assert_eq!(h.accs(), 4);
    // the last read of block 64 misses the first level and hits the second
    assert_eq!(h.hits(), 1);
    assert_eq!(h.misses(), 3);
    assert_eq!(h.access(128), Access::Hit);
    assert_eq!(h.pin_addr(256, 8), Access::Miss);
}
