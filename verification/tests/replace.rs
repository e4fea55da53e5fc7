use ved::bufsearcher::BufSearcher;
use ved::error::Error;
use ved::replacer::Replacer;
use ved::replacer::replace_single;
use ved::replacer::replace_stream;
use ved::replacer::temporary_path;
use ved::teereader::tee;

#[test]
fn test_replacer_basic() {
    let patterns = vec![b"abba".to_vec()];
    let replacement = b"toto".to_vec();
    let searcher = BufSearcher::new(&patterns, &replacement).unwrap();
    let original = tee(b"abba".to_vec());
    let mut replacer = Replacer::new(searcher, original);
    let result = replacer.replace_next_diff();
    assert!(result.is_ok());
    let content = replacer.into_output();
    assert_eq!(content, b"toto");
}

#[test]
fn test_replace_file_empty() {
    let result = replace_single(&b"abba".to_vec(), &b"toto".to_vec(), Vec::new());
    assert!(result.is_ok());
    let content = result.unwrap();
    assert_eq!(content, b"");
}

#[test]
fn test_replace_basic() {
    let result = replace_single(&b"abba".to_vec(), &b"toto".to_vec(), b"abba".to_vec());
    assert!(result.is_ok());
    let content = result.unwrap();
    assert_eq!(content, b"toto");
}

#[test]
fn test_replace_two_hits() {
    let result = replace_single(
        &b"abba".to_vec(),
        &b"toto".to_vec(),
        b"abba has sold more records than abba".to_vec(),
    );
    assert!(result.is_ok());
    let content = result.unwrap();
    assert_eq!(content, b"toto has sold more records than toto");
}

#[test]
fn test_replace_max_pattern_len() {
    let pattern = vec![b'X'; 4096];
    let mut orig_content = pattern.clone();
    orig_content.extend_from_slice(b" and ");
    orig_content.extend_from_slice(&pattern);
    let result = replace_single(&pattern, &b"toto".to_vec(), orig_content);
    assert!(result.is_ok());
    let content = result.unwrap();
    assert_eq!(content, b"toto and toto");
}

#[test]
fn test_replace_block_pair() {
    let patterns = vec![b"abba".to_vec(), b"toto".to_vec()];
    let result = replace_stream(&patterns, &b"queen".to_vec(), b"abba\ntoto".to_vec());
    assert!(result.is_ok());
    let content = result.unwrap();
    assert_eq!(content, b"queen\nqueen");
}

#[test]
fn test_replace_block_leaves_other_bytes() {
    let patterns = vec![b"ab".to_vec(), b"cd".to_vec()];
    let result = replace_stream(&patterns, &b"Z".to_vec(), b"-ab-\ncd-ef".to_vec());
    assert!(result.is_ok());
    let content = result.unwrap();
    // parts at column 1: "ab" on line one, but line two holds "cd" at column 0
    assert_eq!(content, b"-ab-\ncd-ef");
}

#[test]
fn test_replace_no_match_identity() {
    let input = b"nothing to see here".to_vec();
    let result = replace_single(&b"abba".to_vec(), &b"toto".to_vec(), input.clone());
    assert_eq!(result.unwrap(), input);
}

#[test]
fn test_replace_shrinking_replacement() {
    let result = replace_single(&b"abba".to_vec(), &b"x".to_vec(), b"abba-abba".to_vec());
    assert_eq!(result.unwrap(), b"x-x");
}

#[test]
fn test_replace_growing_replacement() {
    let result = replace_single(&b"a".to_vec(), &b"bbb".to_vec(), b"aaaaa".to_vec());
    assert_eq!(result.unwrap(), b"bbbbbbbbbbbbbbb");
}

#[test]
fn test_replace_overlapping_occurrences_leftmost() {
    // "aaa" in "aaaa": only the leftmost occurrence is replaced
    let result = replace_single(&b"aaa".to_vec(), &b"b".to_vec(), b"aaaa".to_vec());
    assert_eq!(result.unwrap(), b"ba");
}

#[test]
fn test_replace_bad_pattern_errors() {
    let empty_seq: Vec<Vec<u8>> = Vec::new();
    assert_eq!(
        replace_stream(&empty_seq, &b"toto".to_vec(), b"abc".to_vec()).unwrap_err(),
        Error::BadPattern
    );
    assert_eq!(
        replace_single(&Vec::new(), &b"toto".to_vec(), b"abc".to_vec()).unwrap_err(),
        Error::BadPattern
    );
    assert_eq!(
        replace_single(&vec![b'X'; 4097], &b"toto".to_vec(), b"abc".to_vec()).unwrap_err(),
        Error::BadPattern
    );
}

#[test]
fn test_temporary_path_shape() {
    let p = temporary_path("/tmp/file");
    assert_eq!(p.len(), "/tmp/file".len() + "._ved_temp_".len() + 8);
    assert!(p.starts_with("/tmp/file._ved_temp_"));
    let suffix = &p["/tmp/file._ved_temp_".len()..];
    assert!(suffix.chars().all(|c| c.is_ascii_alphanumeric()));
}

#[test]
fn test_temporary_path_varies() {
    // two draws of the random suffix almost surely differ
    let a = temporary_path("f");
    let b = temporary_path("f");
    let c = temporary_path("f");
    assert!(a != b || b != c);
}

#[test]
fn test_replace_three_part_block() {
    let patterns = vec![b"aa".to_vec(), b"bb".to_vec(), b"cc".to_vec()];
    let result = replace_stream(&patterns, &b"Z".to_vec(), b"aa\nbb\ncc".to_vec());
    assert_eq!(result.unwrap(), b"Z\nZ\nZ");
}

#[test]
fn test_replace_rejects_overlapping_group() {
    // the group anchored at offset 2 would reuse the span already taken by
    // the first group's second part, so it is skipped
    let patterns = vec![b"a".to_vec(), b"a".to_vec()];
    let result = replace_stream(&patterns, &b"X".to_vec(), b"a\na\na".to_vec());
    assert_eq!(result.unwrap(), b"X\nX\na");
}

#[test]
fn test_replace_across_buffer_compaction() {
    // matches on both sides of the scan-buffer capacity force compaction
    let mut input = Vec::new();
    for _ in 0..3000 {
        input.extend_from_slice(b"xy");
    }
    input.extend_from_slice(b"ab");
    for _ in 0..3000 {
        input.extend_from_slice(b"xy");
    }
    let mut expected = Vec::new();
    for _ in 0..3000 {
        expected.extend_from_slice(b"xy");
    }
    expected.extend_from_slice(b"Z");
    for _ in 0..3000 {
        expected.extend_from_slice(b"xy");
    }
    let result = replace_single(&b"ab".to_vec(), &b"Z".to_vec(), input);
    assert_eq!(result.unwrap(), expected);
}
