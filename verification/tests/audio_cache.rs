use yomiage::audio_cache::AudioCache;

#[test]
fn returns_cached_audio_and_promotes_it_to_most_recent() {
    let mut cache = AudioCache::new(2, 100);
    cache.insert("first", &[1]);
    cache.insert("second", &[2]);
    assert_eq!(cache.get("first"), Some(vec![1]));

    cache.insert("third", &[3]);
    assert_eq!(cache.get("first"), Some(vec![1]));
    assert_eq!(cache.get("second"), None);
    assert_eq!(cache.get("third"), Some(vec![3]));
}

#[test]
fn evicts_entries_when_the_byte_limit_is_exceeded() {
    let mut cache = AudioCache::new(10, 3);
    cache.insert("first", &[1, 2]);
    cache.insert("second", &[3, 4]);

    assert_eq!(cache.get("first"), None);
    assert_eq!(cache.get("second"), Some(vec![3, 4]));
}

#[test]
fn skips_entries_larger_than_the_cache_limit() {
    let mut cache = AudioCache::new(10, 2);
    cache.insert("large", &[1, 2, 3]);

    assert_eq!(cache.get("large"), None);
}

#[test]
fn stored_audio_is_found_again() {
    let mut cache = AudioCache::new(3, 10);
    cache.insert("hello", &[7, 8, 9]);
    assert_eq!(cache.get("hello"), Some(vec![7, 8, 9]));
}

#[test]
fn inserting_again_replaces_the_audio() {
    let mut cache = AudioCache::new(3, 10);
    cache.insert("hello", &[1]);
    cache.insert("hello", &[2, 3]);
    assert_eq!(cache.get("hello"), Some(vec![2, 3]));
}

#[test]
fn disabled_cache_stores_nothing() {
    let mut cache = AudioCache::new(0, 100);
    cache.insert("a", &[1]);
    assert_eq!(cache.get("a"), None);
    let mut cache = AudioCache::new(10, 0);
    cache.insert("a", &[1]);
    assert_eq!(cache.get("a"), None);
}

#[test]
fn replacing_an_entry_frees_its_old_bytes() {
    let mut cache = AudioCache::new(10, 4);
    cache.insert("a", &[1, 2, 3]);
    cache.insert("b", &[4]);
    cache.insert("a", &[5]);
    assert_eq!(cache.get("b"), Some(vec![4]));
    assert_eq!(cache.get("a"), Some(vec![5]));
}
