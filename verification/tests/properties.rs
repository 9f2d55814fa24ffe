use lru_cache::cache::Cache;
use lru_cache::lru_cache::LRUCache;

#[test]
fn lru_order_touch_then_evict() {
    let mut cache: LRUCache<&str, String> = Cache::with_capacity(3);
    cache.put("A", String::from("A"));
    cache.put("B", String::from("B"));
    cache.put("C", String::from("C"));
    assert_eq!(cache.get(&"A"), Some(&String::from("A")));
    assert_eq!(cache.get(&"B"), Some(&String::from("B")));
    cache.put("D", String::from("D"));

    assert_eq!(cache.get(&"C"), None);
    assert_eq!(cache.get(&"A"), Some(&String::from("A")));
    assert_eq!(cache.get(&"B"), Some(&String::from("B")));
    assert_eq!(cache.get(&"D"), Some(&String::from("D")));
}

#[test]
fn get_promotes_changes_eviction_victim() {
    let mut cache: LRUCache<&str, String> = Cache::with_capacity(3);
    cache.put("A", String::from("A"));
    cache.put("B", String::from("B"));
    cache.put("C", String::from("C"));
    assert_eq!(cache.get(&"A"), Some(&String::from("A")));
    cache.put("D", String::from("D"));

    assert_eq!(cache.get(&"B"), None);
    assert_eq!(cache.get(&"A"), Some(&String::from("A")));
    assert_eq!(cache.get(&"C"), Some(&String::from("C")));
    assert_eq!(cache.get(&"D"), Some(&String::from("D")));
}

#[test]
fn overwrite_repromotes_and_evicts_nothing() {
    let mut cache: LRUCache<&str, i64> = Cache::with_capacity(2);
    cache.put("K", 1);
    cache.put("X", 7);
    cache.put("K", 2);

    assert_eq!(cache.get(&"X"), Some(&7));
    assert_eq!(cache.get(&"K"), Some(&2));

    // K was just re-promoted, so a further insertion evicts X, not K.
    cache.put("Y", 9);
    assert_eq!(cache.get(&"X"), None);
    assert_eq!(cache.get(&"K"), Some(&2));
    assert_eq!(cache.get(&"Y"), Some(&9));
}

#[test]
fn invalidate_is_idempotent() {
    let mut cache: LRUCache<&str, String> = Cache::with_capacity(3);
    cache.put("A", String::from("A"));
    cache.put("B", String::from("B"));

    cache.invalidate(&"A");
    assert_eq!(cache.get(&"A"), None);
    assert_eq!(cache.get(&"B"), Some(&String::from("B")));
    cache.invalidate(&"A");
    assert_eq!(cache.get(&"A"), None);
    assert_eq!(cache.get(&"B"), Some(&String::from("B")));
}

#[test]
fn invalidate_absent_key_is_noop() {
    let mut cache: LRUCache<&str, String> = Cache::with_capacity(2);
    cache.put("A", String::from("A"));
    cache.invalidate(&"Z");
    assert_eq!(cache.get(&"A"), Some(&String::from("A")));
}

#[test]
fn invalidate_each_position() {
    // Removing the head, a middle entry and the tail all patch the
    // recency list correctly: the survivors stay retrievable and further
    // insertions still evict in strict order.
    let mut cache: LRUCache<&str, i64> = Cache::with_capacity(3);
    cache.put("A", 1);
    cache.put("B", 2);
    cache.put("C", 3);
    cache.invalidate(&"B");
    assert_eq!(cache.get(&"A"), Some(&1));
    assert_eq!(cache.get(&"C"), Some(&3));

    cache.put("D", 4);
    cache.invalidate(&"D");
    assert_eq!(cache.get(&"A"), Some(&1));
    assert_eq!(cache.get(&"C"), Some(&3));
    assert_eq!(cache.get(&"D"), None);

    cache.invalidate(&"A");
    assert_eq!(cache.get(&"A"), None);
    assert_eq!(cache.get(&"C"), Some(&3));
}

#[test]
fn put_get_roundtrip() {
    let mut cache: LRUCache<u64, u64> = Cache::with_capacity(1);
    let mut k: u64 = 0;
    while k < 50 {
        cache.put(k, k * k);
        assert_eq!(cache.get(&k), Some(&(k * k)));
        k += 1;
    }
}

#[test]
fn capacity_bound_under_distinct_puts() {
    // With capacity 2, after any number of puts of distinct keys only
    // the two most recent keys are retrievable.
    let mut cache: LRUCache<u64, u64> = Cache::with_capacity(2);
    let mut k: u64 = 0;
    while k < 20 {
        cache.put(k, k + 100);
        k += 1;
    }
    let mut live: usize = 0;
    let mut probe: u64 = 0;
    while probe < 20 {
        // Look the older key up first so the probes do not disturb
        // which keys are live.
        if cache.get(&probe).is_some() {
            live += 1;
        }
        probe += 1;
    }
    assert_eq!(live, 2);
    assert_eq!(cache.get(&18), Some(&118));
    assert_eq!(cache.get(&19), Some(&119));
}

#[test]
fn no_duplication_after_repeated_put() {
    // Putting the same key twice must not create a second entry: both
    // other keys fit beside it in a capacity-3 store.
    let mut cache: LRUCache<&str, i64> = Cache::with_capacity(3);
    cache.put("A", 1);
    cache.put("A", 2);
    cache.put("B", 3);
    cache.put("C", 4);
    assert_eq!(cache.get(&"A"), Some(&2));
    assert_eq!(cache.get(&"B"), Some(&3));
    assert_eq!(cache.get(&"C"), Some(&4));
}

#[test]
fn zero_capacity_retains_nothing() {
    let mut cache: LRUCache<&str, String> = Cache::with_capacity(0);
    cache.put("A", String::from("A"));
    assert_eq!(cache.get(&"A"), None);
    cache.invalidate(&"A");
    assert_eq!(cache.get(&"A"), None);
}

#[test]
fn capacity_one_evicts_previous() {
    let mut cache: LRUCache<&str, i64> = Cache::with_capacity(1);
    cache.put("A", 1);
    cache.put("B", 2);
    assert_eq!(cache.get(&"A"), None);
    assert_eq!(cache.get(&"B"), Some(&2));
}

#[test]
fn reinsert_after_eviction() {
    let mut cache: LRUCache<&str, i64> = Cache::with_capacity(2);
    cache.put("A", 1);
    cache.put("B", 2);
    cache.put("C", 3);
    assert_eq!(cache.get(&"A"), None);
    cache.put("A", 10);
    assert_eq!(cache.get(&"A"), Some(&10));
    assert_eq!(cache.get(&"B"), None);
    assert_eq!(cache.get(&"C"), Some(&3));
}
