use whisper::cache::WhisperCache;
use whisper::file::WhisperFile;
use whisper::point::Point;
use whisper::schema::{RetentionPolicy, Schema};

fn file(path: &str, precision: u32) -> WhisperFile {
    let schema = Schema::new(vec![RetentionPolicy::new(precision, 5)]).unwrap();
    WhisperFile::new(path.to_string(), &schema)
}

fn precision_of(cache: &mut WhisperCache, path: &str) -> Option<u32> {
    cache.get(path).map(|file| file.archives()[0].seconds_per_point())
}

#[test]
fn new_cache_is_empty() {
    let mut cache = WhisperCache::new(3);
    assert_eq!(cache.len(), 0);
    assert_eq!(cache.capacity(), 3);
    assert!(cache.get("a").is_none());
    assert!(cache.remove("a").is_none());
}

#[test]
fn cache_keeps_what_fits() {
    let mut cache = WhisperCache::new(3);
    assert!(cache.insert("a".to_string(), file("a", 1)).is_none());
    assert!(cache.insert("b".to_string(), file("b", 2)).is_none());
    assert!(cache.insert("c".to_string(), file("c", 3)).is_none());
    assert_eq!(cache.len(), 3);
    assert_eq!(precision_of(&mut cache, "a"), Some(1));
    assert_eq!(precision_of(&mut cache, "b"), Some(2));
    assert_eq!(precision_of(&mut cache, "c"), Some(3));
    assert_eq!(precision_of(&mut cache, "d"), None);
}

#[test]
fn full_cache_evicts_the_least_recently_used() {
    let mut cache = WhisperCache::new(2);
    cache.insert("a".to_string(), file("a", 1));
    cache.insert("b".to_string(), file("b", 2));
    let evicted = cache.insert("c".to_string(), file("c", 3)).unwrap();
    assert_eq!(evicted.0, "a");
    assert_eq!(evicted.1, file("a", 1));
    assert_eq!(cache.len(), 2);
    assert!(cache.get("a").is_none());
    let evicted = cache.insert("d".to_string(), file("d", 4)).unwrap();
    assert_eq!(evicted.0, "b");
    assert_eq!(precision_of(&mut cache, "c"), Some(3));
    assert_eq!(precision_of(&mut cache, "d"), Some(4));
}

#[test]
fn get_refreshes_an_entry() {
    let mut cache = WhisperCache::new(2);
    cache.insert("a".to_string(), file("a", 1));
    cache.insert("b".to_string(), file("b", 2));
    assert!(cache.get("a").is_some());
    let evicted = cache.insert("c".to_string(), file("c", 3)).unwrap();
    assert_eq!(evicted.0, "b");
    assert_eq!(precision_of(&mut cache, "a"), Some(1));
    // "a" was used last: "c" is now the oldest
    let evicted = cache.insert("d".to_string(), file("d", 4)).unwrap();
    assert_eq!(evicted.0, "c");
    assert_eq!(precision_of(&mut cache, "a"), Some(1));
}

#[test]
fn missed_get_changes_nothing() {
    let mut cache = WhisperCache::new(2);
    cache.insert("a".to_string(), file("a", 1));
    cache.insert("b".to_string(), file("b", 2));
    assert!(cache.get("x").is_none());
    assert_eq!(cache.len(), 2);
    let evicted = cache.insert("c".to_string(), file("c", 3)).unwrap();
    assert_eq!(evicted.0, "a");
}

#[test]
fn insert_over_a_kept_path_replaces_the_file() {
    let mut cache = WhisperCache::new(2);
    cache.insert("a".to_string(), file("a", 1));
    cache.insert("b".to_string(), file("b", 2));
    let replaced = cache.insert("a".to_string(), file("a", 10)).unwrap();
    assert_eq!(replaced.0, "a");
    assert_eq!(replaced.1, file("a", 1));
    assert_eq!(cache.len(), 2);
    // "a" is now the most recently used: "b" leaves next
    let evicted = cache.insert("c".to_string(), file("c", 3)).unwrap();
    assert_eq!(evicted.0, "b");
    assert_eq!(precision_of(&mut cache, "a"), Some(10));
}

#[test]
fn cache_without_capacity_keeps_nothing() {
    let mut cache = WhisperCache::new(0);
    let evicted = cache.insert("a".to_string(), file("a", 1)).unwrap();
    assert_eq!(evicted.0, "a");
    assert_eq!(evicted.1, file("a", 1));
    assert_eq!(cache.len(), 0);
    assert!(cache.get("a").is_none());
}

#[test]
fn cache_of_one() {
    let mut cache = WhisperCache::new(1);
    assert!(cache.insert("a".to_string(), file("a", 1)).is_none());
    assert!(cache.get("a").is_some());
    let evicted = cache.insert("b".to_string(), file("b", 2)).unwrap();
    assert_eq!(evicted.0, "a");
    assert_eq!(cache.len(), 1);
    assert_eq!(precision_of(&mut cache, "b"), Some(2));
}

#[test]
fn remove_takes_the_file_out() {
    let mut cache = WhisperCache::new(2);
    cache.insert("a".to_string(), file("a", 1));
    cache.insert("b".to_string(), file("b", 2));
    assert_eq!(cache.remove("a"), Some(file("a", 1)));
    assert_eq!(cache.remove("a"), None);
    assert_eq!(cache.len(), 1);
    assert!(cache.insert("c".to_string(), file("c", 3)).is_none());
    assert_eq!(cache.len(), 2);
}

#[test]
fn writes_through_the_cache_are_kept() {
    let mut cache = WhisperCache::new(2);
    cache.insert("a".to_string(), file("a", 60));
    cache.insert("b".to_string(), file("b", 60));
    cache.get("a").unwrap().write_at(&Point::new(1200, 42), 1200).unwrap();
    assert_eq!(cache.get("b").unwrap().archives()[0].read(0), Some(Point::new(0, 0)));
    assert_eq!(cache.get("a").unwrap().archives()[0].read(0), Some(Point::new(1200, 42)));
    // the written file comes back as it is when it leaves
    cache.insert("c".to_string(), file("c", 60));
    let evicted = cache.insert("d".to_string(), file("d", 60)).unwrap();
    assert_eq!(evicted.0, "a");
    assert_eq!(evicted.1.archives()[0].read(0), Some(Point::new(1200, 42)));
}
