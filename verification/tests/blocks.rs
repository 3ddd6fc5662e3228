use dssc::chunked::block::{append_range, Block, BlockType};
use dssc::chunked::expand::expand_blocks;
use dssc::chunked::matching::match_chunks;
use dssc::chunked::select::{count_matched, delta_len};

fn delta(needle_off: usize, offset: usize, len: usize) -> Block {
    Block { block_type: BlockType::Delta, needle_off, offset, len }
}

fn original(needle_off: usize, len: usize) -> Block {
    Block { block_type: BlockType::Original, needle_off, offset: 0, len }
}

fn expand(needle: &[u8], hay: &[u8]) -> Vec<Block> {
    let hay = hay.to_vec();
    let matches = match_chunks(needle, &hay);
    expand_blocks(needle, &hay, &matches)
}

fn assert_partition(blocks: &[Block], needle: &[u8], hay: &[u8]) {
    let mut at = 0;
    for b in blocks {
        assert_eq!(b.needle_off, at);
        assert!(b.len > 0);
        at += b.len;
        if b.block_type == BlockType::Delta {
            assert_eq!(
                &needle[b.needle_off..b.needle_off + b.len],
                &hay[b.offset..b.offset + b.len]
            );
        }
    }
    assert_eq!(at, needle.len());
}

#[test]
fn append_range_appends_the_range() {
    let mut buf = vec![1u8];
    append_range(&mut buf, b"abcdef", 2, 5);
    assert_eq!(buf, vec![1, b'c', b'd', b'e']);
    append_range(&mut buf, b"abcdef", 3, 3);
    assert_eq!(buf, vec![1, b'c', b'd', b'e']);
}

#[test]
fn fit_grows_in_both_directions() {
    let needle = b"Hello Test Worlds";
    let hay = b"Test Worlds".to_vec();
    let mut block = delta(8, 2, 8);
    block.fit(needle, &hay);
    assert_eq!(block, delta(6, 0, 11));
}

#[test]
fn fit_stops_where_the_bytes_differ() {
    let needle = b"..abXYZWcd..";
    let hay = b"__abXYZWcd__".to_vec();
    let mut block = delta(4, 4, 4);
    block.fit(needle, &hay);
    assert_eq!(block, delta(2, 2, 8));
}

#[test]
fn fit_reaches_the_first_byte_of_both() {
    let needle = b"abcdef";
    let hay = b"abcdef".to_vec();
    let mut block = delta(2, 2, 1);
    block.fit(needle, &hay);
    assert_eq!(block, delta(0, 0, 6));
}

#[test]
fn fit_stops_at_the_start_of_the_shorter_side() {
    let needle = b"xxabcd";
    let hay = b"abcdyy".to_vec();
    let mut block = delta(4, 2, 2);
    block.fit(needle, &hay);
    assert_eq!(block, delta(2, 0, 4));
    let needle = b"abcdyy";
    let hay = b"xxabcd".to_vec();
    let mut block = delta(0, 2, 2);
    block.fit(needle, &hay);
    assert_eq!(block, delta(0, 2, 4));
}

#[test]
fn fit_leaves_an_original_block_alone() {
    let needle = b"abcdef";
    let hay = b"abcdef".to_vec();
    let mut block = Block { block_type: BlockType::Original, needle_off: 2, offset: 2, len: 1 };
    block.fit(needle, &hay);
    assert_eq!(
        block,
        Block { block_type: BlockType::Original, needle_off: 2, offset: 2, len: 1 }
    );
}

#[test]
fn fit_of_an_empty_delta_block_grows_from_its_place() {
    let needle = b"abcdef";
    let hay = b"..cd..".to_vec();
    let mut block = delta(3, 3, 0);
    block.fit(needle, &hay);
    assert_eq!(block, delta(2, 2, 2));
}

#[test]
fn trim_front_cuts_what_is_covered() {
    let mut block = delta(4, 8, 8);
    block.trim_front(6);
    assert_eq!(block, delta(6, 10, 6));
    let mut block = delta(4, 8, 8);
    block.trim_front(4);
    assert_eq!(block, delta(4, 8, 8));
    let mut block = delta(4, 8, 8);
    block.trim_front(0);
    assert_eq!(block, delta(4, 8, 8));
}

#[test]
fn trim_front_leaves_nothing_of_a_covered_block() {
    let mut block = delta(4, 8, 8);
    block.trim_front(12);
    assert_eq!(block, delta(12, 16, 0));
    let mut block = delta(4, 8, 8);
    block.trim_front(100);
    assert_eq!(block, delta(12, 16, 0));
}

#[test]
fn encode_delta_writes_offset_plus_one_and_length() {
    let mut buf = vec![7u8];
    delta(6, 0, 11).encode(b"Hello Test Worlds", &mut buf);
    assert_eq!(buf, vec![7, 1, 11]);
    let mut buf = Vec::new();
    delta(0, 299, 128).encode(b"", &mut buf);
    assert_eq!(buf, vec![0xac, 0x02, 0x80, 0x01]);
}

#[test]
fn encode_original_writes_marker_length_and_bytes() {
    let mut buf = vec![7u8];
    original(0, 6).encode(b"Hello Test Worlds", &mut buf);
    assert_eq!(buf, vec![7, 0, 6, b'H', b'e', b'l', b'l', b'o', b' ']);
    let mut buf = Vec::new();
    original(3, 0).encode(b"abc", &mut buf);
    assert_eq!(buf, vec![0, 0]);
}

#[test]
fn encode_original_of_a_long_run_has_a_two_byte_length() {
    let needle = vec![b'x'; 200];
    let mut buf = Vec::new();
    original(0, 200).encode(&needle, &mut buf);
    assert_eq!(buf.len(), 1 + 2 + 200);
    assert_eq!(&buf[..3], &[0, 0xc8, 0x01]);
    assert_eq!(&buf[3..], &needle[..]);
}

#[test]
fn hello_test_worlds_expands_to_a_literal_and_one_delta() {
    let blocks = expand(b"Hello Test Worlds", b"Test Worlds");
    assert_eq!(blocks, vec![original(0, 6), delta(6, 0, 11)]);
}

#[test]
fn expand_empty_needle_gives_no_block() {
    assert_eq!(expand(b"", b"Test Worlds"), Vec::<Block>::new());
    assert_eq!(expand(b"", b""), Vec::<Block>::new());
}

#[test]
fn expand_without_matches_gives_one_literal() {
    assert_eq!(expand(b"abcdefghij", b"0123456789"), vec![original(0, 10)]);
    assert_eq!(expand(b"abc", b""), vec![original(0, 3)]);
}

#[test]
fn expand_whole_needle_found_gives_one_delta() {
    assert_eq!(expand(b"abcdefgh", b"abcdefgh"), vec![delta(0, 0, 8)]);
    assert_eq!(expand(b"abcdefghij", b"__abcdefghij__"), vec![delta(0, 2, 10)]);
}

#[test]
fn expand_fills_the_gap_between_two_deltas() {
    assert_eq!(
        expand(b"abcdXXXXefgh", b"abcd....efgh"),
        vec![delta(0, 0, 4), original(4, 4), delta(8, 8, 4)]
    );
}

#[test]
fn expand_starts_a_new_delta_where_the_haystack_jumps() {
    assert_eq!(expand(b"abcdefgh", b"efghabcd"), vec![delta(0, 4, 4), delta(4, 0, 4)]);
}

#[test]
fn expand_drops_a_run_that_an_earlier_block_covers() {
    assert_eq!(expand(b"abcdabcd", b"xabcdabcdy"), vec![delta(0, 1, 8)]);
}

#[test]
fn expand_cuts_a_run_back_to_where_the_block_before_ends() {
    assert_eq!(
        expand(b"abcdefghijkl", b"abcdef__efghijkl"),
        vec![delta(0, 0, 6), delta(6, 10, 6)]
    );
}

#[test]
fn expand_literal_tail_after_a_delta() {
    assert_eq!(expand(b"abcdefXYZ", b"abcdef"), vec![delta(0, 0, 6), original(6, 3)]);
}

#[test]
fn expand_takes_a_given_vector_as_it_is() {
    let needle = b"abcdefgh";
    let hay = b"abcdefgh__abcdefgh".to_vec();
    assert_eq!(expand_blocks(needle, &hay, &vec![11, 15]), vec![delta(0, 10, 8)]);
    assert_eq!(expand_blocks(needle, &hay, &vec![0, 5]), vec![delta(0, 0, 8)]);
    assert_eq!(expand_blocks(needle, &hay, &vec![0, 0]), vec![original(0, 8)]);
    assert_eq!(expand_blocks(needle, &hay, &vec![11, 5]), vec![delta(0, 10, 8)]);
}

#[test]
fn expanded_blocks_partition_the_needle() {
    let cases: [(&[u8], &[u8]); 8] = [
        (b"Hello Test Worlds", b"Test Worlds"),
        (b"Hello Test Worlds", b"Hello Denis Worlds"),
        (b"Hello Test Worlds", b"Test Bananas"),
        (b"abcdabcdabcdabcd", b"abcdabcd"),
        (b"aaaaaaaaaaaaaaaaaaa", b"aaaaaaa"),
        (b"abababababababab", b"babababa"),
        (b"the quick brown fox", b"the slow brown dog jumps"),
        (b"x", b"xxxx"),
    ];
    for (needle, hay) in cases {
        let blocks = expand(needle, hay);
        assert_partition(&blocks, needle, hay);
    }
}

#[test]
fn count_matched_counts_the_entries_that_are_not_zero() {
    assert_eq!(count_matched(&vec![]), 0);
    assert_eq!(count_matched(&vec![0, 0, 0]), 0);
    assert_eq!(count_matched(&vec![0, 0, 3, 7, 3]), 3);
    assert_eq!(count_matched(&vec![1]), 1);
}

#[test]
fn delta_len_adds_the_lengths_of_the_delta_blocks() {
    assert_eq!(delta_len(&vec![], 0), 0);
    assert_eq!(delta_len(&vec![original(0, 6), delta(6, 0, 11)], 17), 11);
    assert_eq!(delta_len(&vec![delta(0, 0, 4), original(4, 4), delta(8, 8, 4)], 12), 8);
    assert_eq!(delta_len(&vec![original(0, 10)], 10), 0);
}
