use hasami::trie::DoubleArrayTrie;

#[test]
fn test_basic_trie() {
    let entries = vec![
        ("abc".as_bytes(), 0u32),
        ("abd".as_bytes(), 1),
        ("ab".as_bytes(), 2),
        ("b".as_bytes(), 3),
    ];
    let trie = DoubleArrayTrie::build(&entries);

    let results = trie.common_prefix_search(b"abcdef");
    assert_eq!(results.len(), 2);
    assert_eq!(results[0], (2, vec![2]));
    assert_eq!(results[1], (3, vec![0]));
}

#[test]
fn test_callback_api() {
    let entries = vec![("abc".as_bytes(), 0u32), ("ab".as_bytes(), 2)];
    let trie = DoubleArrayTrie::build(&entries);

    let mut found: Vec<(usize, Vec<u32>)> = Vec::new();
    trie.common_prefix_search_cb(b"abcdef", &mut found);
    let results: Vec<(usize, u32)> = found.iter().map(|(len, vals)| (*len, vals[0])).collect();
    assert_eq!(results, vec![(2, 2), (3, 0)]);
}

#[test]
fn test_japanese_utf8() {
    let entries = vec![
        ("東".as_bytes(), 0u32),
        ("東京".as_bytes(), 1),
        ("東京都".as_bytes(), 2),
    ];
    let trie = DoubleArrayTrie::build(&entries);

    let results = trie.common_prefix_search("東京都に住む".as_bytes());
    assert_eq!(results.len(), 3);
    assert_eq!(results[0].1, vec![0]);
    assert_eq!(results[1].1, vec![1]);
    assert_eq!(results[2].1, vec![2]);
}

#[test]
fn test_multiple_values() {
    let entries = vec![
        ("test".as_bytes(), 0u32),
        ("test".as_bytes(), 1),
        ("test".as_bytes(), 2),
    ];
    let trie = DoubleArrayTrie::build(&entries);

    let results = trie.common_prefix_search(b"test");
    assert_eq!(results.len(), 1);
    assert_eq!(results[0].1, vec![0, 1, 2]);
}

#[test]
fn test_no_match() {
    let entries = vec![("hello".as_bytes(), 0u32)];
    let trie = DoubleArrayTrie::build(&entries);

    let results = trie.common_prefix_search(b"world");
    assert!(results.is_empty());
}

#[test]
fn test_empty_entries() {
    let entries: Vec<(&[u8], u32)> = vec![];
    let trie = DoubleArrayTrie::build(&entries);
    let results = trie.common_prefix_search(b"anything");
    assert!(results.is_empty());
}

#[test]
fn trie_test_empty_input() {
    let entries = vec![("test".as_bytes(), 0u32)];
    let trie = DoubleArrayTrie::build(&entries);
    let results = trie.common_prefix_search(b"");
    assert!(results.is_empty());
}

#[test]
fn test_single_byte_key() {
    let entries = vec![("a".as_bytes(), 42u32)];
    let trie = DoubleArrayTrie::build(&entries);
    let results = trie.common_prefix_search(b"abc");
    assert_eq!(results.len(), 1);
    assert_eq!(results[0], (1, vec![42]));
}

#[test]
fn test_exact_match() {
    let entries = vec![("hello".as_bytes(), 0u32)];
    let trie = DoubleArrayTrie::build(&entries);
    let results = trie.common_prefix_search(b"hello");
    assert_eq!(results.len(), 1);
    assert_eq!(results[0].0, 5);
}

#[test]
fn test_prefix_chain() {
    let entries = vec![
        ("a".as_bytes(), 0u32),
        ("ab".as_bytes(), 1),
        ("abc".as_bytes(), 2),
        ("abcd".as_bytes(), 3),
    ];
    let trie = DoubleArrayTrie::build(&entries);
    let results = trie.common_prefix_search(b"abcde");
    assert_eq!(results.len(), 4);
    assert_eq!(results[0], (1, vec![0]));
    assert_eq!(results[1], (2, vec![1]));
    assert_eq!(results[2], (3, vec![2]));
    assert_eq!(results[3], (4, vec![3]));
}

#[test]
fn test_large_trie() {
    let words: Vec<String> = (0..1000).map(|i| format!("word{:04}", i)).collect();
    let entries: Vec<(&[u8], u32)> = words
        .iter()
        .enumerate()
        .map(|(i, w)| (w.as_bytes(), i as u32))
        .collect();
    let trie = DoubleArrayTrie::build(&entries);

    let results = trie.common_prefix_search(b"word0042xxx");
    assert!(!results.is_empty());
    let found = results.iter().any(|(_, vals)| vals.contains(&42));
    assert!(found, "Expected value 42 in results: {:?}", results);
}

#[test]
fn test_num_nodes_and_memory() {
    let entries = vec![
        ("cat".as_bytes(), 0u32),
        ("car".as_bytes(), 1),
        ("card".as_bytes(), 2),
    ];
    let trie = DoubleArrayTrie::build(&entries);
    assert!(trie.num_nodes() > 0);
    assert!(trie.memory_usage() > 0);
}

#[test]
fn test_progress_callback() {
    let entries: Vec<String> = (0..100).map(|i| format!("entry{}", i)).collect();
    let entries: Vec<(&[u8], u32)> = entries
        .iter()
        .enumerate()
        .map(|(i, s)| (s.as_bytes(), i as u32))
        .collect();

    let mut called = false;
    let _trie = DoubleArrayTrie::build_with_progress(&entries, |processed, total| {
        assert!(processed <= total);
        called = true;
    });
    let _ = called;
}

#[test]
fn test_shared_prefix_different_values() {
    let entries = vec![
        ("東京".as_bytes(), 0u32),
        ("東京都".as_bytes(), 1),
        ("東京タワー".as_bytes(), 2),
    ];
    let trie = DoubleArrayTrie::build(&entries);

    let results = trie.common_prefix_search("東京都庁".as_bytes());
    assert_eq!(results.len(), 2);
    assert_eq!(results[0].1, vec![0]);
    assert_eq!(results[1].1, vec![1]);
}

#[test]
fn test_internal_slices_accessible() {
    let entries = vec![("abc".as_bytes(), 0u32)];
    let trie = DoubleArrayTrie::build(&entries);
    assert!(!trie.base_slice().is_empty());
    assert!(!trie.check_slice().is_empty());
    assert!(!trie.output_slice().is_empty());
    assert!(!trie.value_pool_slice().is_empty());
}

#[test]
fn progress_is_reported_every_ten_thousand_nodes() {
    let words: Vec<String> = (0..12000).map(|i| format!("{:06}", i)).collect();
    let entries: Vec<(&[u8], u32)> = words
        .iter()
        .enumerate()
        .map(|(i, w)| (w.as_bytes(), i as u32))
        .collect();
    let mut calls = Vec::new();
    let trie = DoubleArrayTrie::build_with_progress(&entries, |processed, total| {
        calls.push((processed, total));
    });
    assert!(!calls.is_empty());
    for (k, &(processed, total)) in calls.iter().enumerate() {
        assert_eq!(processed, (k + 1) * 10_000);
        assert!(processed <= total);
    }
    let results = trie.common_prefix_search(b"011999");
    assert_eq!(results, vec![(6, vec![11999])]);
}

#[test]
fn empty_key_matches_at_length_zero() {
    let entries = vec![("".as_bytes(), 7u32), ("a".as_bytes(), 8)];
    let trie = DoubleArrayTrie::build(&entries);
    assert_eq!(trie.common_prefix_search(b"ab"), vec![(0, vec![7]), (1, vec![8])]);
    assert_eq!(trie.common_prefix_search(b""), vec![(0, vec![7])]);
}

#[test]
fn memory_usage_counts_four_bytes_per_entry() {
    let entries = vec![("ab".as_bytes(), 1u32), ("ac".as_bytes(), 2)];
    let trie = DoubleArrayTrie::build(&entries);
    let expected = 4 * (trie.base_slice().len()
        + trie.check_slice().len()
        + trie.output_slice().len()
        + trie.value_pool_slice().len());
    assert_eq!(trie.memory_usage(), expected);
    assert_eq!(trie.num_nodes(), trie.base_slice().len());
    assert_eq!(trie.value_pool_slice(), &[1, 1, 1, 2]);
}
