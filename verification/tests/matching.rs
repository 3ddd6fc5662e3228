use dssc::cache::RecordCache;
use dssc::chunked::matching::{chunk_match, match_chunks, CHUNK_SIZE};

#[test]
fn chunk_size_is_four() {
    assert_eq!(CHUNK_SIZE, 4);
}

#[test]
fn one_entry_per_chunk() {
    assert_eq!(match_chunks(b"", b"abcdef"), Vec::<usize>::new());
    assert_eq!(match_chunks(b"a", b"zzzzzz").len(), 1);
    assert_eq!(match_chunks(b"abcd", b"zzzzzz").len(), 1);
    assert_eq!(match_chunks(b"abcde", b"zzzzzz").len(), 2);
    assert_eq!(match_chunks(b"abcdefgh", b"zzzzzz").len(), 2);
    assert_eq!(match_chunks(b"abcdefghi", b"zzzzzz").len(), 3);
}

#[test]
fn entry_is_one_more_than_the_first_position() {
    assert_eq!(match_chunks(b"abcd", b"abcd"), vec![1]);
    assert_eq!(match_chunks(b"abcd", b"xabcd"), vec![2]);
    assert_eq!(match_chunks(b"abca", b"xabcabcabca"), vec![2]);
    assert_eq!(match_chunks(b"abcdefgh", b"efgh--abcd"), vec![7, 1]);
}

#[test]
fn chunk_not_found_gives_zero() {
    assert_eq!(match_chunks(b"abcdefgh", b"abcd-efg"), vec![1, 0]);
    assert_eq!(match_chunks(b"abcd", b""), vec![0]);
}

#[test]
fn haystack_shorter_than_a_chunk_matches_nothing() {
    assert_eq!(match_chunks(b"abc", b"abc"), vec![0]);
    assert_eq!(match_chunks(b"a", b"a"), vec![0]);
    assert_eq!(match_chunks(b"abcdab", b"ab"), vec![0, 0]);
}

#[test]
fn trailing_partial_chunk_is_matched_at_its_length() {
    let needle = b"0123456789abcdefXY";
    assert_eq!(needle.len(), 18);
    assert_eq!(match_chunks(needle, b"..XY...."), vec![0, 0, 0, 0, 3]);
    assert_eq!(match_chunks(needle, b"XY.."), vec![0, 0, 0, 0, 1]);
    assert_eq!(match_chunks(needle, b"..X.Y..."), vec![0, 0, 0, 0, 0]);
}

#[test]
fn partial_chunk_is_scanned_only_where_a_whole_window_fits() {
    assert_eq!(match_chunks(b"abcdXY", b"....XY"), vec![0, 0]);
    assert_eq!(match_chunks(b"abcdXY", b"...XY."), vec![0, 0]);
    assert_eq!(match_chunks(b"abcdXY", b"..XY.."), vec![0, 3]);
}

#[test]
fn hello_test_worlds_match_vector() {
    let mut cache = RecordCache::new();
    assert!(cache.push(b"Test Worlds".to_vec()));
    let matches = chunk_match(b"Hello Test Worlds", &cache);
    assert_eq!(matches, vec![vec![0, 0, 3, 7, 3]]);
}

#[test]
fn chunk_match_gives_one_vector_per_haystack_in_order() {
    let mut cache = RecordCache::new();
    assert!(cache.push(b"Hello Denis Worlds".to_vec()));
    assert!(cache.push(b"Test Worlds".to_vec()));
    assert!(cache.push(b"Test Bananas".to_vec()));
    let needle = b"Hello Test Worlds";
    let matches = chunk_match(needle, &cache);
    assert_eq!(matches.len(), 3);
    assert_eq!(matches[0], vec![1, 0, 0, 14, 11]);
    assert_eq!(matches[1], vec![0, 0, 3, 7, 3]);
    assert_eq!(matches[2], vec![0, 0, 0, 0, 3]);
    for h in 0..3 {
        assert_eq!(matches[h], match_chunks(needle, cache.get(h)));
    }
}

#[test]
fn chunk_match_on_empty_cache_is_empty() {
    let cache = RecordCache::new();
    assert_eq!(chunk_match(b"abcd", &cache), Vec::<Vec<usize>>::new());
}
