use lru_cache::cache::Cache;
use lru_cache::lru_cache::LRUCache;

#[test]
fn cache_test_get_put() {
    let mut cache: LRUCache<&str, String> = Cache::with_capacity(3);
    cache.put("A", String::from("A"));
    cache.put("B", String::from("B"));
    cache.put("C", String::from("C"));

    assert_eq!(cache.get(&"A"), Some(&String::from("A")));
    assert_eq!(cache.get(&"B"), Some(&String::from("B")));
    assert_eq!(cache.get(&"C"), Some(&String::from("C")));
}

#[test]
fn cache_test_capacity() {
    let mut cache: LRUCache<&str, String> = Cache::with_capacity(3);
    cache.put("A", String::from("A"));
    cache.put("B", String::from("B"));
    cache.put("C", String::from("C"));
    cache.put("D", String::from("D"));

    assert_eq!(cache.get(&"A"), None);
    assert_eq!(cache.get(&"B"), Some(&String::from("B")));
    assert_eq!(cache.get(&"C"), Some(&String::from("C")));
    assert_eq!(cache.get(&"D"), Some(&String::from("D")));
}

#[test]
fn cache_test_invalidate() {
    let mut cache: LRUCache<&str, String> = Cache::with_capacity(3);
    cache.put("A", String::from("A"));
    cache.put("B", String::from("B"));

    cache.invalidate(&"A");
    assert_eq!(cache.get(&"A"), None);
    assert_eq!(cache.get(&"B"), Some(&String::from("B")));
}
