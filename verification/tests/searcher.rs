use ved::bufsearcher::BufSearcher;
use ved::diff::Diff;
use ved::diffheap::DiffHeap;
use ved::error::Error;
use ved::teereader::tee;

fn expect_bad_pattern(r: Result<BufSearcher, Error>) {
    match r {
        Err(e) => assert_eq!(e, Error::BadPattern),
        Ok(_) => panic!("expected a pattern rejection"),
    }
}

fn all_diffs_of(patterns: Vec<Vec<u8>>, replacement: &[u8], input: &[u8]) -> Vec<Diff> {
    let replacement = replacement.to_vec();
    let mut searcher = BufSearcher::new(&patterns, &replacement).unwrap();
    let mut t = tee(input.to_vec());
    let mut diffs = Vec::new();
    while let Some(d) = searcher.next_diff(&mut t) {
        diffs.push(d);
    }
    diffs
}

#[test]
fn test_basic() {
    let patterns = vec![b"abba".to_vec()];
    let replacement = b"toto".to_vec();
    let mut buf_searcher = BufSearcher::new(&patterns, &replacement).unwrap();
    let mut input = tee(b"abba".to_vec());
    let option = buf_searcher.next_diff(&mut input);
    assert!(option.is_some());
    let diff = option.unwrap();
    let expected = Diff { pos: 0, remove: 4, add: b"toto".to_vec() };
    assert_eq!(diff, expected);
}

#[test]
fn test_two_hits() {
    let diffs = all_diffs_of(vec![b"abba".to_vec()], b"toto", b"abba has sold abba records");
    let expected = vec![
        Diff { pos: 0, remove: 4, add: b"toto".to_vec() },
        Diff { pos: 14, remove: 4, add: b"toto".to_vec() },
    ];
    assert_eq!(diffs, expected);
}

#[test]
fn test_block_basic() {
    let diffs = all_diffs_of(vec![b"abba".to_vec(), b"toto".to_vec()], b"queen", b"abba\ntoto");
    let expected = vec![
        Diff { pos: 0, remove: 4, add: b"queen".to_vec() },
        Diff { pos: 5, remove: 4, add: b"queen".to_vec() },
    ];
    assert_eq!(diffs, expected);
}

#[test]
fn test_block_misaligned_column_no_match() {
    // the second part sits one column off the anchor, so no group matches
    let diffs = all_diffs_of(vec![b"abba".to_vec(), b"toto".to_vec()], b"queen", b"abba\n toto");
    assert_eq!(diffs, Vec::<Diff>::new());
}

#[test]
fn test_block_aligned_at_column() {
    // both parts start at column 3 of their lines
    let diffs = all_diffs_of(vec![b"abba".to_vec(), b"toto".to_vec()], b"queen", b"xx abba\nzz toto");
    let expected = vec![
        Diff { pos: 3, remove: 4, add: b"queen".to_vec() },
        Diff { pos: 11, remove: 4, add: b"queen".to_vec() },
    ];
    assert_eq!(diffs, expected);
}

#[test]
fn test_new_rejects_empty_sequence() {
    let patterns: Vec<Vec<u8>> = Vec::new();
    let replacement = b"toto".to_vec();
    expect_bad_pattern(BufSearcher::new(&patterns, &replacement));
}

#[test]
fn test_new_rejects_empty_pattern() {
    let patterns = vec![b"".to_vec()];
    let replacement = b"toto".to_vec();
    expect_bad_pattern(BufSearcher::new(&patterns, &replacement));
}

#[test]
fn test_new_rejects_oversized_pattern() {
    let patterns = vec![vec![b'X'; 4097]];
    let replacement = b"toto".to_vec();
    expect_bad_pattern(BufSearcher::new(&patterns, &replacement));
}

#[test]
fn test_new_rejects_block_span_over_capacity() {
    // the two parts fit, but not together with one maximal column gap
    let patterns = vec![vec![b'X'; 4000], vec![b'Y'; 90]];
    let replacement = b"toto".to_vec();
    expect_bad_pattern(BufSearcher::new(&patterns, &replacement));
}

#[test]
fn test_heap_orders_by_position() {
    let mk = |pos: usize| Diff { pos, remove: 1, add: b"r".to_vec() };
    let mut heap = DiffHeap::new();
    heap.push(mk(5));
    heap.push(mk(1));
    heap.push(mk(3));
    assert_eq!(heap.pop().unwrap().pos, 1);
    assert_eq!(heap.pop().unwrap().pos, 3);
    assert_eq!(heap.pop().unwrap().pos, 5);
    assert!(heap.pop().is_none());
}

#[test]
fn test_heap_merge_with() {
    let mk = |pos: usize| Diff { pos, remove: 1, add: b"r".to_vec() };
    let mut heap = DiffHeap::new();
    heap.push(mk(2));
    heap.push(mk(6));
    let mut other = DiffHeap::new();
    other.push(mk(4));
    other.push(mk(1));
    heap.merge_with(other);
    assert_eq!(heap.pop().unwrap().pos, 1);
    assert_eq!(heap.pop().unwrap().pos, 2);
    assert_eq!(heap.pop().unwrap().pos, 4);
    assert_eq!(heap.pop().unwrap().pos, 6);
    assert!(heap.pop().is_none());
}
