use quickwit_core::footer_cache::{split_footer_from_cache_or_fetch, FooterSource, SplitFooterCache};
use quickwit_core::request::SplitIdAndFooterOffsets;

fn split(id: &str) -> SplitIdAndFooterOffsets {
    SplitIdAndFooterOffsets {
        split_id: id.to_string(),
        split_footer_start: 10,
        split_footer_end: 30,
        timestamp_start: None,
        timestamp_end: None,
    }
}

#[test]
fn miss_names_the_range_then_hit_returns_bytes() {
    let mut cache = SplitFooterCache::new(100);
    match split_footer_from_cache_or_fetch(&mut cache, &split("s1")) {
        FooterSource::Fetch { file_name, start, end } => {
            assert_eq!(file_name, "s1.split");
            assert_eq!((start, end), (10, 30));
        }
        FooterSource::Cached(_) => panic!("an empty cache cannot hit"),
    }
    cache.put("s1".to_string(), vec![7u8; 20]);
    match split_footer_from_cache_or_fetch(&mut cache, &split("s1")) {
        FooterSource::Cached(bytes) => assert_eq!(bytes, vec![7u8; 20]),
        FooterSource::Fetch { .. } => panic!("the footer was cached"),
    }
}

#[test]
fn least_recently_used_footer_is_evicted() {
    let mut cache = SplitFooterCache::new(50);
    cache.put("a".to_string(), vec![1u8; 20]);
    cache.put("b".to_string(), vec![2u8; 20]);
    assert!(cache.get(&"a".to_string()).is_some());
    cache.put("c".to_string(), vec![3u8; 20]);
    assert!(cache.get(&"b".to_string()).is_none());
    assert_eq!(cache.get(&"a".to_string()), Some(vec![1u8; 20]));
    assert_eq!(cache.get(&"c".to_string()), Some(vec![3u8; 20]));
    assert!(cache.used_bytes <= 50);
}

#[test]
fn footer_larger_than_the_cache_is_not_kept() {
    let mut cache = SplitFooterCache::new(10);
    cache.put("a".to_string(), vec![1u8; 5]);
    cache.put("big".to_string(), vec![0u8; 11]);
    assert!(cache.get(&"big".to_string()).is_none());
    assert_eq!(cache.get(&"a".to_string()), Some(vec![1u8; 5]));
}

#[test]
fn replacing_a_footer_updates_its_bytes() {
    let mut cache = SplitFooterCache::new(10);
    cache.put("a".to_string(), vec![1u8; 8]);
    cache.put("a".to_string(), vec![2u8; 9]);
    assert_eq!(cache.get(&"a".to_string()), Some(vec![2u8; 9]));
    assert_eq!(cache.used_bytes, 9);
}
