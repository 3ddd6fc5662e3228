use dssc::cache::{RecordCache, MAX_RECORDS};

#[test]
fn new_cache_is_empty() {
    let cache = RecordCache::new();
    assert_eq!(cache.len(), 0);
}

#[test]
fn push_appends_in_order() {
    let mut cache = RecordCache::new();
    assert!(cache.push(b"first".to_vec()));
    assert!(cache.push(Vec::new()));
    assert!(cache.push(b"third".to_vec()));
    assert_eq!(cache.len(), 3);
    assert_eq!(cache.get(0), &b"first".to_vec());
    assert_eq!(cache.get(1), &Vec::<u8>::new());
    assert_eq!(cache.get(2), &b"third".to_vec());
}

#[test]
fn full_cache_refuses_a_record() {
    assert_eq!(MAX_RECORDS, 256);
    let mut cache = RecordCache::new();
    for i in 0..MAX_RECORDS {
        assert!(cache.push(vec![i as u8]));
    }
    assert_eq!(cache.len(), 256);
    assert!(!cache.push(b"one too many".to_vec()));
    assert_eq!(cache.len(), 256);
    assert_eq!(cache.get(255), &vec![255u8]);
}
