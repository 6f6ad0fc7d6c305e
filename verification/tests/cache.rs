use george::cache::{cache_home, holds, is_before, latest_snapshot, Cache, CacheError};
use george::path::PathContext;
use george::Mapping;

fn mapping(name: &str, target: &str) -> Mapping {
    let ctx = PathContext::new(None, "/work".to_string()).unwrap();
    Mapping::new(name, target, &ctx)
}

#[test]
fn default_cache_is_empty() {
    let cache = Cache::default();
    assert_eq!(cache.mappings().len(), 0);
    assert!(!cache.contains(&mapping("a", "b")));
}

#[test]
fn cache_holds_what_it_was_given() {
    let cache = Cache::new(vec![mapping("a", "b"), mapping("c", "d")]);
    assert_eq!(cache.mappings(), vec![mapping("a", "b"), mapping("c", "d")]);
    assert!(cache.contains(&mapping("a", "b")));
    assert!(cache.contains(&mapping("c", "d")));
    assert!(!cache.contains(&mapping("a", "d")));
    assert!(!cache.contains(&mapping("c", "b")));
    assert_eq!(cache.into_mappings(), vec![mapping("a", "b"), mapping("c", "d")]);
}

#[test]
fn holds_looks_at_every_member() {
    let list = vec![mapping("a", "b"), mapping("c", "d"), mapping("e", "f")];
    assert!(holds(&list, &mapping("e", "f")));
    assert!(!holds(&list, &mapping("e", "b")));
    assert!(!holds(&Vec::new(), &mapping("a", "b")));
}

#[test]
fn cache_home_prefers_the_cache_root() {
    assert_eq!(cache_home(Some("/x/cache"), Some("/home/u")), Ok("/x/cache/george".to_string()));
    assert_eq!(cache_home(Some("/x/cache"), None), Ok("/x/cache/george".to_string()));
}

#[test]
fn cache_home_falls_back_to_home() {
    assert_eq!(cache_home(None, Some("/home/u")), Ok("/home/u/.cache/george".to_string()));
}

#[test]
fn cache_home_needs_one_of_the_two() {
    assert_eq!(cache_home(None, None), Err(CacheError::NoHome));
}

#[test]
fn byte_order() {
    assert!(is_before(b"a", b"b"));
    assert!(!is_before(b"b", b"a"));
    assert!(is_before(b"a", b"ab"));
    assert!(!is_before(b"ab", b"a"));
    assert!(!is_before(b"ab", b"ab"));
    assert!(is_before(b"", b"a"));
    assert!(!is_before(b"", b""));
    assert!(is_before(b"abc", b"abd"));
    assert!(is_before("z".as_bytes(), "\u{e9}".as_bytes()));
}

#[test]
fn latest_snapshot_is_the_last_in_byte_order() {
    let names = vec![
        "2023-05-01 10:00:00.120 +02:00".to_string(),
        "2023-05-02 09:00:00.001 +02:00".to_string(),
        "2023-04-30 23:59:59.999 +02:00".to_string(),
    ];
    assert_eq!(latest_snapshot(&names), Some(1));
}

#[test]
fn latest_snapshot_of_none() {
    assert_eq!(latest_snapshot(&Vec::new()), None);
}

#[test]
fn latest_snapshot_takes_the_first_of_equals() {
    let names = vec!["b".to_string(), "a".to_string(), "b".to_string()];
    assert_eq!(latest_snapshot(&names), Some(0));
    let names = vec!["a".to_string(), "b".to_string(), "b".to_string(), "ab".to_string()];
    assert_eq!(latest_snapshot(&names), Some(1));
}
