use clip_player::cache::SizeBoundedLruCache;

#[test]
fn scenario_capacity_ten() {
    // capacity 10; a, b, c of size 4 each: pushing c evicts a.
    let mut cache = SizeBoundedLruCache::new(10);
    assert_eq!(cache.push("a".to_string(), 1, 4), None);
    assert_eq!(cache.push("b".to_string(), 2, 4), None);
    let evicted = cache.push("c".to_string(), 3, 4);
    assert_eq!(evicted, Some(("a".to_string(), 1)));
    assert_eq!(cache.current_byte_size(), 8);
    assert_eq!(cache.len(), 2);
    // a hit on b refreshes it, so pushing d evicts c, not b.
    assert_eq!(cache.get(&"b".to_string()), Some(2));
    let evicted = cache.push("d".to_string(), 4, 4);
    assert_eq!(evicted, Some(("c".to_string(), 3)));
    assert_eq!(cache.current_byte_size(), 8);
    assert_eq!(cache.get(&"b".to_string()), Some(2));
    assert_eq!(cache.get(&"d".to_string()), Some(4));
    assert_eq!(cache.get(&"c".to_string()), None);
    assert_eq!(cache.get(&"a".to_string()), None);
}

#[test]
fn capacity_invariant_under_fitting_pushes() {
    let mut cache = SizeBoundedLruCache::new(9);
    let sizes = [3usize, 5, 9, 1, 1, 1, 1, 7, 2, 9];
    for (i, size) in sizes.iter().enumerate() {
        cache.push(format!("clip{}", i), i as u64, *size);
        assert!(cache.current_byte_size() <= cache.max_byte_size());
    }
}

#[test]
fn lru_order_keeps_refreshed_entry() {
    let mut cache = SizeBoundedLruCache::new(8);
    cache.push("a".to_string(), 10, 4);
    cache.push("b".to_string(), 20, 4);
    assert_eq!(cache.get(&"a".to_string()), Some(10));
    let evicted = cache.push("c".to_string(), 30, 4);
    assert_eq!(evicted, Some(("b".to_string(), 20)));
    assert_eq!(cache.get(&"a".to_string()), Some(10));
    assert_eq!(cache.get(&"b".to_string()), None);
    assert_eq!(cache.get(&"c".to_string()), Some(30));
}

#[test]
fn oversized_item_stands_alone() {
    let mut cache = SizeBoundedLruCache::new(10);
    cache.push("a".to_string(), 1, 4);
    cache.push("b".to_string(), 2, 4);
    let evicted = cache.push("big".to_string(), 3, 11);
    // everything else went; the last entry evicted was b.
    assert_eq!(evicted, Some(("b".to_string(), 2)));
    assert_eq!(cache.len(), 1);
    assert_eq!(cache.current_byte_size(), 11);
    assert_eq!(cache.get(&"a".to_string()), None);
    assert_eq!(cache.get(&"b".to_string()), None);
    assert_eq!(cache.get(&"big".to_string()), Some(3));
}

#[test]
fn replacement_accounts_second_size_only() {
    let mut cache = SizeBoundedLruCache::new(10);
    cache.push("k".to_string(), 1, 6);
    assert_eq!(cache.current_byte_size(), 6);
    let evicted = cache.push("k".to_string(), 2, 2);
    // a plain replacement evicts nothing and reports nothing.
    assert_eq!(evicted, None);
    assert_eq!(cache.current_byte_size(), 2);
    assert_eq!(cache.len(), 1);
    assert_eq!(cache.get(&"k".to_string()), Some(2));
}

#[test]
fn replacement_with_larger_size_can_evict_others() {
    let mut cache = SizeBoundedLruCache::new(8);
    cache.push("a".to_string(), 1, 4);
    cache.push("b".to_string(), 2, 4);
    // replacing a with a full-budget entry pushes b out.
    let evicted = cache.push("a".to_string(), 3, 8);
    assert_eq!(evicted, Some(("b".to_string(), 2)));
    assert_eq!(cache.current_byte_size(), 8);
    assert_eq!(cache.get(&"b".to_string()), None);
    assert_eq!(cache.get(&"a".to_string()), Some(3));
}

#[test]
fn miss_returns_nothing_and_changes_nothing() {
    let mut cache = SizeBoundedLruCache::new(10);
    cache.push("a".to_string(), 1, 4);
    cache.push("b".to_string(), 2, 4);
    assert_eq!(cache.get(&"absent".to_string()), None);
    assert_eq!(cache.current_byte_size(), 8);
    assert_eq!(cache.len(), 2);
    // the miss refreshed nothing: a is still the eviction candidate.
    let evicted = cache.push("c".to_string(), 3, 4);
    assert_eq!(evicted, Some(("a".to_string(), 1)));
}

#[test]
fn eviction_report_names_last_entry_evicted() {
    let mut cache = SizeBoundedLruCache::new(8);
    assert_eq!(cache.push("a".to_string(), 1, 4), None);
    assert_eq!(cache.push("b".to_string(), 2, 4), None);
    // one push that displaces both: the report names b, evicted last.
    let evicted = cache.push("c".to_string(), 3, 8);
    assert_eq!(evicted, Some(("b".to_string(), 2)));
    assert_eq!(cache.current_byte_size(), 8);
    assert_eq!(cache.len(), 1);
}

#[test]
fn zero_size_entry_is_kept_until_displaced() {
    let mut cache = SizeBoundedLruCache::new(4);
    cache.push("z".to_string(), 9, 0);
    let evicted = cache.push("a".to_string(), 1, 4);
    // z costs nothing, so a fits beside it.
    assert_eq!(evicted, None);
    assert_eq!(cache.current_byte_size(), 4);
    assert_eq!(cache.len(), 2);
    // the next full-size push displaces z first (least recently used),
    // then a, and reports a.
    let evicted = cache.push("b".to_string(), 2, 4);
    assert_eq!(evicted, Some(("a".to_string(), 1)));
    assert_eq!(cache.get(&"z".to_string()), None);
}

#[test]
fn zero_capacity_cache_holds_each_entry_alone() {
    let mut cache = SizeBoundedLruCache::new(0);
    assert_eq!(cache.push("a".to_string(), 1, 1), None);
    assert_eq!(cache.len(), 1);
    assert_eq!(cache.current_byte_size(), 1);
    let evicted = cache.push("b".to_string(), 2, 1);
    assert_eq!(evicted, Some(("a".to_string(), 1)));
    assert_eq!(cache.len(), 1);
    assert_eq!(cache.get(&"b".to_string()), Some(2));
}

#[test]
fn fresh_cache_is_empty() {
    let mut cache = SizeBoundedLruCache::new(100);
    assert_eq!(cache.len(), 0);
    assert_eq!(cache.current_byte_size(), 0);
    assert_eq!(cache.max_byte_size(), 100);
    assert_eq!(cache.get(&"anything".to_string()), None);
}
