use hasami::sentence::index::{head_has_no_prev, head_key, key_char, split_bytes, tail, Index};

#[test]
fn head_key_packs_rank_and_codes() {
    assert_eq!(head_key('。', Some('a'), None), (6u64 << 44) | (0x62u64 << 22));
    assert_eq!(head_key('!', None, None), 0);
    assert_eq!(
        head_key('?', Some('b'), Some('a')),
        (1u64 << 44) | (0x63u64 << 22) | 0x62
    );
    assert!(head_has_no_prev(head_key('。', None, None)));
    assert!(!head_has_no_prev(head_key('。', Some('x'), None)));
}

#[test]
fn key_char_reads_back_to_the_line_start() {
    let list = "ab。c";
    assert_eq!(key_char(list, 2, 0), Some('b'));
    assert_eq!(key_char(list, 2, 1), Some('a'));
    assert_eq!(key_char(list, 2, 2), None);
    let list = "x\n東。";
    assert_eq!(key_char(list, 5, 0), Some('東'));
    assert_eq!(key_char(list, 5, 3), None);
    assert_eq!(key_char(list, 20, 0), None);
}

#[test]
fn tail_runs_to_the_end_of_the_word() {
    assert_eq!(tail("ab。cd\r\nx", 2), "cd");
    assert_eq!(tail("ab。", 2), "");
    assert_eq!(tail("。x\n。yz", 5), "yz");
}

#[test]
fn build_orders_anchors_by_key() {
    let list = "ab。c\nx!\n# c。\n";
    let ix = Index::build(list, true);
    assert_eq!(ix.words, 2);
    assert_eq!(ix.enders, vec![8, 2]);
    assert_eq!(ix.links, vec![0, 0]);
    assert_eq!(
        ix.head_keys,
        vec![0x79u64 << 22, (6u64 << 44) | (0x63u64 << 22) | 0x62]
    );
    assert_eq!(ix.head_starts, vec![0, 1]);
    let all = Index::build(list, false);
    assert_eq!(all.words, 3);
    assert_eq!(all.enders.len(), 3);
}

#[test]
fn build_links_second_halves_to_their_longest_prefix() {
    let ix = Index::build("a。\na。b\na。bc\n", false);
    assert_eq!(ix.words, 3);
    assert_eq!(ix.enders, vec![1, 6, 12]);
    assert_eq!(ix.links, vec![0, 0, 2]);
    assert_eq!(ix.head_keys.len(), 1);
    assert_eq!(ix.head_starts, vec![0]);
}

#[test]
fn build_skips_unmatchable_words() {
    let ix = Index::build("abc\n\n。\r\n", true);
    assert_eq!(ix.words, 1);
    assert_eq!(ix.enders, vec![5]);
    assert_eq!(ix.links, vec![0]);
}

#[test]
fn index_bytes_split_back_into_parts() {
    let ix = Index::build("a。\na。b\nx!y\n", false);
    let bytes = ix.to_bytes();
    assert_eq!(&bytes[..4], b"HSX3");
    let parts = split_bytes(&bytes).unwrap();
    assert_eq!(parts.words, ix.words);
    let enders: Vec<u8> = ix.enders.iter().flat_map(|e| e.to_le_bytes()).collect();
    let links: Vec<u8> = ix.links.iter().flat_map(|e| e.to_le_bytes()).collect();
    let heads: Vec<u8> = ix.head_keys.iter().flat_map(|e| e.to_le_bytes()).collect();
    let starts: Vec<u8> = ix.head_starts.iter().flat_map(|e| e.to_le_bytes()).collect();
    assert_eq!(parts.enders, &enders[..]);
    assert_eq!(parts.links, &links[..]);
    assert_eq!(parts.head_keys, &heads[..]);
    assert_eq!(parts.head_starts, &starts[..]);
    assert!(split_bytes(&bytes[..bytes.len() - 1]).is_none());
    let mut bad = bytes.clone();
    bad[0] = b'X';
    assert!(split_bytes(&bad).is_none());
}
