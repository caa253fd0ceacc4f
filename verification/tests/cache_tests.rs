use lru_cache::LruCache;

#[test]
fn put_get() {
    let mut lru: LruCache<i32, i32> = LruCache::new(1);

    lru.put(1, 5);

    assert_eq!(5, *lru.get(&1).unwrap());
}

#[test]
fn get_non_existing_key() {
    let mut lru: LruCache<i32, i32> = LruCache::new(1);

    assert_eq!(None, lru.get(&1));
}

#[test]
fn drop_oldest_put_item_when_hit_capacity() {
    let mut lru: LruCache<i32, i32> = LruCache::new(2);

    lru.put(1, 5);
    lru.put(2, 6);
    lru.put(3, 7);

    assert_eq!(None, lru.get(&1));
    assert_eq!(6, *lru.get(&2).unwrap());
    assert_eq!(7, *lru.get(&3).unwrap());
}

#[test]
fn drop_oldest_accessed_item_when_hit_capacity() {
    let mut lru: LruCache<i32, i32> = LruCache::new(2);

    lru.put(1, 5);
    lru.put(2, 6);

    assert_eq!(5, *lru.get(&1).unwrap());

    lru.put(3, 7);

    assert_eq!(5, *lru.get(&1).unwrap());
    assert_eq!(None, lru.get(&2));
    assert_eq!(7, *lru.get(&3).unwrap());
}

#[test]
fn update_exisitng_key() {
    let mut lru: LruCache<i32, i32> = LruCache::new(2);

    lru.put(1, 5);
    lru.put(2, 6);

    lru.put(1, 11);

    assert_eq!(11, *lru.get(&1).unwrap());
    assert_eq!(6, *lru.get(&2).unwrap());
}

#[test]
fn capacity_one_evicts_on_second_put() {
    let mut lru: LruCache<i32, i32> = LruCache::new(1);

    lru.put(1, 5);
    lru.put(2, 6);

    assert_eq!(None, lru.get(&1));
    assert_eq!(6, *lru.get(&2).unwrap());
}

#[test]
fn miss_does_not_change_recency_order() {
    let mut lru: LruCache<i32, i32> = LruCache::new(2);

    lru.put(1, 5);
    lru.put(2, 6);

    assert_eq!(None, lru.get(&99));

    lru.put(3, 7);

    assert_eq!(None, lru.get(&1));
    assert_eq!(6, *lru.get(&2).unwrap());
    assert_eq!(7, *lru.get(&3).unwrap());
}

#[test]
fn update_resets_recency() {
    let mut lru: LruCache<i32, i32> = LruCache::new(2);

    lru.put(1, 5);
    lru.put(2, 6);
    lru.put(1, 11);
    lru.put(3, 7);

    assert_eq!(None, lru.get(&2));
    assert_eq!(11, *lru.get(&1).unwrap());
    assert_eq!(7, *lru.get(&3).unwrap());
}

#[test]
fn hit_on_newest_key_still_promotes() {
    let mut lru: LruCache<i32, i32> = LruCache::new(2);

    lru.put(1, 5);
    lru.put(2, 6);

    assert_eq!(6, *lru.get(&2).unwrap());

    lru.put(3, 7);

    assert_eq!(None, lru.get(&1));
    assert_eq!(6, *lru.get(&2).unwrap());
    assert_eq!(7, *lru.get(&3).unwrap());
}

#[test]
fn get_on_empty_cache_then_put_and_get() {
    let mut lru: LruCache<i32, i32> = LruCache::new(1);

    assert_eq!(None, lru.get(&1));

    lru.put(1, 5);

    assert_eq!(5, *lru.get(&1).unwrap());
}

#[test]
fn string_values_are_stored_and_returned() {
    let mut lru: LruCache<u64, String> = LruCache::new(2);

    lru.put(10, String::from("ten"));
    lru.put(20, String::from("twenty"));
    lru.put(30, String::from("thirty"));

    assert_eq!(None, lru.get(&10));
    assert_eq!("twenty", lru.get(&20).unwrap());
    assert_eq!("thirty", lru.get(&30).unwrap());
}
