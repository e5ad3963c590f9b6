use matcha_ecs_widgets::GlyphCache;

fn cache(capacity: usize) -> GlyphCache<u32, u32> {
    GlyphCache::new(capacity)
}

#[test]
fn miss_then_hit_reuses_the_same_value() {
    let mut c = cache(4);
    let mut builds = 0;
    assert_eq!(
        *c.get_or_insert_with(1, || {
            builds += 1;
            100
        })
        .unwrap(),
        100
    );
    assert_eq!(
        *c.get_or_insert_with(1, || {
            builds += 1;
            999
        })
        .unwrap(),
        100
    );
    assert_eq!(builds, 1, "build must only run on the first (miss) lookup");
}

#[test]
fn eviction_targets_the_least_recently_used_entry() {
    let mut c = cache(2);
    c.new_batch();
    c.get_or_insert_with(1, || 1);
    c.new_batch();
    c.get_or_insert_with(2, || 2);
    c.new_batch();
    // Neither 1 nor 2 has been touched in this fresh batch, so both are
    // evictable; 1 is the LRU entry, so inserting a third distinct key
    // must evict 1, not 2.
    c.get_or_insert_with(3, || 3);
    assert_eq!(c.len(), 2);

    let mut rebuilt_2 = false;
    c.get_or_insert_with(2, || {
        rebuilt_2 = true;
        2
    });
    assert!(!rebuilt_2, "2 must still be cached (not evicted)");

    // `3` was inserted (and `2` just re-touched) in the current batch, so
    // both are protected; start a new batch to release that protection
    // before checking that `1` is actually gone.
    c.new_batch();
    let mut rebuilt_1 = false;
    c.get_or_insert_with(1, || {
        rebuilt_1 = true;
        1
    });
    assert!(rebuilt_1, "1 must have been evicted and required a rebuild");
}

#[test]
fn protected_entries_are_not_evicted_within_the_same_batch() {
    let mut c = cache(2);
    c.new_batch();
    c.get_or_insert_with(1, || 1);
    c.get_or_insert_with(2, || 2);
    // Both entries were touched in this same batch, so both are
    // protected: a third distinct key cannot find room.
    assert!(c.get_or_insert_with(3, || 3).is_none());
}

#[test]
fn new_batch_releases_protection_so_eviction_can_proceed() {
    let mut c = cache(2);
    c.new_batch();
    c.get_or_insert_with(1, || 1);
    c.get_or_insert_with(2, || 2);
    c.new_batch();
    assert!(c.get_or_insert_with(3, || 3).is_some());
}

#[test]
fn capacity_one_evicts_across_batches_but_protects_within_one() {
    let mut c = cache(1);
    c.new_batch();
    c.get_or_insert_with(1, || 1);
    c.new_batch();
    c.get_or_insert_with(2, || 2);
    assert_eq!(c.len(), 1);
    // Still batch 2: the single slot (now holding `2`) was already
    // touched this batch, so it's protected: no room to bring `1` back.
    assert!(c.get_or_insert_with(1, || 1).is_none());
    c.new_batch();
    // A new batch releases that protection.
    assert!(c.get_or_insert_with(1, || 1).is_some());
}

#[test]
fn clear_forgets_every_entry() {
    let mut c = cache(2);
    c.get_or_insert_with(1, || 1);
    c.get_or_insert_with(2, || 2);
    c.clear();
    assert!(c.is_empty());
    let mut rebuilt = false;
    c.get_or_insert_with(1, || {
        rebuilt = true;
        1
    });
    assert!(rebuilt);
}

#[test]
fn a_new_cache_is_empty_and_reports_its_capacity() {
    let c = cache(3);
    assert_eq!(c.capacity(), 3);
    assert_eq!(c.len(), 0);
    assert!(c.is_empty());
}

#[test]
fn the_length_never_exceeds_the_capacity() {
    let mut c = cache(3);
    for k in 0..20u32 {
        c.new_batch();
        c.get_or_insert_with(k, || k * 10);
        assert!(c.len() <= c.capacity());
    }
    assert_eq!(c.len(), 3);
    // The three most recent keys survive, with the values they were built with.
    for k in 17..20u32 {
        let mut rebuilt = false;
        let v = *c
            .get_or_insert_with(k, || {
                rebuilt = true;
                0
            })
            .unwrap();
        assert!(!rebuilt);
        assert_eq!(v, k * 10);
    }
}

#[test]
fn a_hit_refreshes_recency_so_the_other_entry_is_evicted() {
    let mut c = cache(2);
    c.new_batch();
    c.get_or_insert_with(1, || 1);
    c.new_batch();
    c.get_or_insert_with(2, || 2);
    c.new_batch();
    // Touching 1 makes 2 the least recently used entry.
    c.get_or_insert_with(1, || 100);
    c.new_batch();
    c.get_or_insert_with(3, || 3);
    c.new_batch();
    let mut rebuilt_1 = false;
    c.get_or_insert_with(1, || {
        rebuilt_1 = true;
        1
    });
    assert!(!rebuilt_1, "1 was refreshed, so 2 must have been the one evicted");
    let mut rebuilt_2 = false;
    c.new_batch();
    c.get_or_insert_with(2, || {
        rebuilt_2 = true;
        2
    });
    assert!(rebuilt_2);
}

#[test]
fn a_refused_insert_leaves_the_cache_unchanged() {
    let mut c = cache(1);
    c.new_batch();
    c.get_or_insert_with(7, || 70);
    let mut built = false;
    assert!(c
        .get_or_insert_with(8, || {
            built = true;
            80
        })
        .is_none());
    assert!(!built, "nothing is built when there is no room");
    assert_eq!(c.len(), 1);
    assert_eq!(*c.get_or_insert_with(7, || 0).unwrap(), 70);
}
