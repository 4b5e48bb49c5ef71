use hasami::hsd::trie::{
    leaf_base, Node, Trie, TrieError, TrieParts, HAS_END, KIND_TAIL, NUM_BLOCKS, TABLE_LEN, UNUSED,
};

/// Keys "a" = 7, "ab" = 8 and "bcd" = 9, with 'a' and 'b' coded 1 and 2.
fn small_parts() -> TrieParts {
    let mut blocks = vec![0u16; NUM_BLOCKS];
    blocks[0] = 1;
    let mut tables = vec![0u16; 2 * TABLE_LEN];
    tables[TABLE_LEN + 0x61] = 1;
    tables[TABLE_LEN + 0x62] = 2;
    let unused = Node { base: 0, check: UNUSED };
    let nodes = vec![
        Node { base: 1, check: 0 },
        unused,
        Node { base: 4 | HAS_END, check: 0 },
        Node { base: (KIND_TAIL << 30) | 0, check: 0 },
        Node { base: leaf_base(7), check: 2 },
        unused,
        Node { base: leaf_base(8), check: 2 },
    ];
    let mut tails = 9u32.to_le_bytes().to_vec();
    tails.push(2);
    tails.extend_from_slice(b"cd");
    TrieParts { blocks, tables, nodes, tails }
}

fn search(trie: &Trie, text: &str, start: usize) -> Vec<(usize, u32)> {
    let mut found: Vec<(usize, u32)> = Vec::new();
    trie.common_prefix_search(text, start, &mut found).unwrap();
    found
}

#[test]
fn hand_built_trie_reads_its_shape() {
    let parts = small_parts();
    let trie = parts.as_trie().unwrap();
    assert_eq!(trie.max_code(), 2);
    assert_eq!(trie.node_count(), 7);
    assert_eq!(trie.char_code('a'), 1);
    assert_eq!(trie.char_code('b'), 2);
    assert_eq!(trie.char_code('東'), 0);
}

#[test]
fn hand_built_trie_reports_every_prefix() {
    let parts = small_parts();
    let trie = parts.as_trie().unwrap();
    assert_eq!(search(&trie, "abcd", 0), vec![(1, 7), (2, 8)]);
    assert_eq!(search(&trie, "bcdx", 0), vec![(3, 9)]);
    assert_eq!(search(&trie, "bc", 0), vec![]);
    assert_eq!(search(&trie, "東ab", 3), vec![(4, 7), (5, 8)]);
    // not a character boundary, and past the end
    assert_eq!(search(&trie, "東ab", 1), vec![]);
    assert_eq!(search(&trie, "ab", 9), vec![]);
    let (found, r) = trie.prefix_matches("xab", 1);
    assert_eq!(found, vec![(2, 7), (3, 8)]);
    assert!(r.is_ok());
}

#[test]
fn hand_built_trie_gets_exact_keys() {
    let parts = small_parts();
    let trie = parts.as_trie().unwrap();
    assert_eq!(trie.get("a"), Ok(Some(7)));
    assert_eq!(trie.get("ab"), Ok(Some(8)));
    assert_eq!(trie.get("bcd"), Ok(Some(9)));
    assert_eq!(trie.get("b"), Ok(None));
    assert_eq!(trie.get("bcde"), Ok(None));
    assert_eq!(trie.get("x"), Ok(None));
}

#[test]
fn hand_built_trie_searches_by_codes() {
    let parts = small_parts();
    let trie = parts.as_trie().unwrap();
    let text = "xab";
    let codes: Vec<u16> = text.chars().map(|c| trie.char_code(c) as u16).collect();
    let offsets: Vec<u32> = vec![0, 1, 2, 3];
    let mut found: Vec<(usize, u32)> = Vec::new();
    trie.common_prefix_search_codes(text, &codes, &offsets, 1, &mut found)
        .unwrap();
    assert_eq!(found, vec![(2, 7), (3, 8)]);
    // the same matches as the search of the text from that character's byte
    let mut by_text: Vec<(usize, u32)> = Vec::new();
    trie.common_prefix_search(text, 1, &mut by_text).unwrap();
    assert_eq!(by_text, vec![(2, 7), (3, 8)]);
    let mut none: Vec<(usize, u32)> = Vec::new();
    trie.common_prefix_search_codes(text, &codes, &offsets, 9, &mut none)
        .unwrap();
    assert!(none.is_empty());
}

#[test]
fn broken_nodes_are_reported() {
    let mut parts = small_parts();
    parts.nodes[2].base = (0b01 << 30) | 3;
    let trie = parts.as_trie().unwrap();
    let mut sink: Vec<(usize, u32)> = Vec::new();
    let err = trie.common_prefix_search("ab", 0, &mut sink).unwrap_err();
    assert!(matches!(err, TrieError::Corrupt(_)));
    assert!(err.message().contains("kind 01"));

    let mut parts = small_parts();
    parts.nodes[4].check = 3;
    let trie = parts.as_trie().unwrap();
    let (found, r) = trie.prefix_matches("ab", 0);
    assert!(found.is_empty());
    assert!(matches!(r, Err(TrieError::Corrupt(_))));

    let mut parts = small_parts();
    parts.tails[4] = 0;
    let trie = parts.as_trie().unwrap();
    assert!(trie.get("bcd").is_err());
}

#[test]
fn malformed_parts_are_refused() {
    let mut parts = small_parts();
    parts.blocks.pop();
    assert!(matches!(parts.as_trie(), Err(TrieError::Corrupt(_))));
    let mut parts = small_parts();
    parts.nodes[0].base |= HAS_END;
    assert!(parts.as_trie().is_err());
    let mut parts = small_parts();
    parts.nodes.truncate(3);
    assert!(parts.as_trie().is_err());
}
