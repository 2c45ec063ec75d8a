use search_core::directory::InnerDirectory;

#[test]
fn test_cache() {}

#[test]
fn test_cache_miss_then_hit() {
    let mut cache = InnerDirectory::new();
    let path = b"segment/postings".to_vec();
    assert!(!cache.contains(&path));
    assert!(cache.get(&path).is_none());
    cache.insert(path.clone(), vec![1, 2, 3]);
    assert!(cache.contains(&path));
    assert_eq!(cache.get(&path), Some(vec![1, 2, 3]));
}

#[test]
fn test_cache_keeps_other_entries() {
    let mut cache = InnerDirectory::new();
    cache.insert(b"one".to_vec(), vec![1]);
    cache.insert(b"two".to_vec(), vec![2]);
    assert_eq!(cache.get(&b"one".to_vec()), Some(vec![1]));
    assert_eq!(cache.get(&b"two".to_vec()), Some(vec![2]));
    assert!(cache.get(&b"three".to_vec()).is_none());
}
