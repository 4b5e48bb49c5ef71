use hasami::hsd::trie::{
    build, kind, Node, Trie, TrieError, TrieParts, BASE_MASK, KIND_INTERNAL, TABLE_LEN, UNUSED,
    VALUE_LIMIT,
};

/// A deterministic xorshift64 generator.
struct XorShift(u64);

impl XorShift {
    fn next(&mut self) -> u64 {
        let mut x = self.0;
        x ^= x << 13;
        x ^= x >> 7;
        x ^= x << 17;
        self.0 = x;
        x
    }

    fn below(&mut self, n: usize) -> usize {
        (self.next() % (n as u64).max(1)) as usize
    }
}

const ALPHABET: &[char] = &['a', 'b', 'c', 'é', 'あ', 'い', 'ー', '東', '京', '𠮷', '😀'];

fn random_keys(rng: &mut XorShift, count: usize, max_len: usize) -> Vec<String> {
    let mut keys: Vec<String> = (0..count)
        .map(|_| {
            let len = 1 + rng.below(max_len);
            (0..len)
                .map(|_| ALPHABET[rng.below(ALPHABET.len())])
                .collect()
        })
        .collect();
    keys.sort();
    keys.dedup();
    keys
}

fn build_indexed(keys: &[&str]) -> TrieParts {
    let values: Vec<u32> = (0..keys.len() as u32).collect();
    build(keys, &values).unwrap()
}

fn search(trie: &Trie, text: &str, start: usize) -> Vec<(usize, u32)> {
    let mut found: Vec<(usize, u32)> = Vec::new();
    trie.common_prefix_search(text, start, &mut found).unwrap();
    found
}

#[test]
fn test_char_not_in_dictionary_stops_search() {
    let keys = ["東", "東X京", "東京"];
    let parts = build_indexed(&keys);
    let trie = parts.as_trie().unwrap();
    assert_eq!(trie.char_code('Z'), 0);
    assert_eq!(trie.char_code('\u{10FFFF}'), 0);
    assert_eq!(search(&trie, "東Z京", 0), vec![(3, 0)]);
    assert_eq!(search(&trie, "Z東", 0), vec![]);
    assert_eq!(search(&trie, "東X京都", 0), vec![(3, 0), (7, 1)]);
    assert_eq!(trie.get("Z").unwrap(), None);
}

#[test]
fn test_start_is_absolute_and_must_be_char_boundary() {
    let keys = ["京都", "都"];
    let parts = build_indexed(&keys);
    let trie = parts.as_trie().unwrap();
    let text = "東京都";
    assert_eq!(search(&trie, text, 3), vec![(9, 0)]);
    assert_eq!(search(&trie, text, 6), vec![(9, 1)]);
    assert_eq!(search(&trie, text, 9), vec![]);
    assert_eq!(search(&trie, text, 4), vec![]);
    assert_eq!(search(&trie, text, 100), vec![]);
}

#[test]
fn test_build_is_deterministic() {
    let mut rng = XorShift(12345);
    let owned = random_keys(&mut rng, 500, 8);
    let keys: Vec<&str> = owned.iter().map(String::as_str).collect();
    let values: Vec<u32> = (0..keys.len() as u32).collect();
    let a = build(&keys, &values).unwrap();
    let b = build(&keys, &values).unwrap();
    assert_eq!(a, b);
}

#[test]
fn test_char_codes_follow_frequency_then_char_order() {
    let keys = ["あい", "いう", "いえ", "うあ"];
    let parts = build_indexed(&keys);
    let trie = parts.as_trie().unwrap();
    assert_eq!(trie.char_code('い'), 1);
    assert_eq!(trie.char_code('あ'), 2);
    assert_eq!(trie.char_code('う'), 3);
    assert_eq!(trie.char_code('え'), 4);
    assert_eq!(trie.max_code(), 4);
    let keys = ["a", "é", "あ"];
    let parts = build_indexed(&keys);
    assert_eq!(parts.blocks[0x00], 1);
    assert_eq!(parts.blocks[0x30], 2);
    assert_eq!(parts.tables.len(), 3 * TABLE_LEN);
}

#[test]
fn test_layout_invariants() {
    let mut rng = XorShift(777);
    let owned = random_keys(&mut rng, 300, 10);
    let keys: Vec<&str> = owned.iter().map(String::as_str).collect();
    let parts = build_indexed(&keys);
    let trie = parts.as_trie().unwrap();
    let n = trie.max_code() as usize;
    let empty = Node { base: 0, check: UNUSED };
    for slot in 1..=n {
        assert_eq!(parts.nodes[slot], empty, "slot {slot}");
    }
    let mut max_base = 0;
    for node in &parts.nodes {
        if node.check == UNUSED {
            assert_eq!(node.base, 0);
        } else if kind(node.base) == KIND_INTERNAL {
            let base = (node.base & BASE_MASK) as usize;
            assert!(base >= 1 && base + n < parts.nodes.len());
            max_base = max_base.max(base);
        }
    }
    assert_eq!(parts.nodes.len(), max_base + n + 1);
}

#[test]
fn test_build_errors() {
    let is_build_err = |r: Result<TrieParts, TrieError>| matches!(r, Err(TrieError::Build(_)));
    assert!(is_build_err(build(&[], &[])));
    assert!(is_build_err(build(&[""], &[0])));
    assert!(is_build_err(build(&["a", ""], &[0, 1])));
    assert!(is_build_err(build(&["b", "a"], &[0, 1])));
    assert!(is_build_err(build(&["a", "a"], &[0, 1])));
    assert!(is_build_err(build(&["a"], &[VALUE_LIMIT])));
    assert!(is_build_err(build(&["a"], &[u32::MAX])));
    assert!(is_build_err(build(&["a", "b"], &[0])));
    assert!(build(&["a"], &[VALUE_LIMIT - 1]).is_ok());
}

#[test]
fn built_tries_find_every_key() {
    let mut rng = XorShift(0x9E37_79B9_7F4A_7C15);
    for _ in 0..40 {
        let count = 1 + rng.below(200);
        let owned = random_keys(&mut rng, count, 12);
        let keys: Vec<&str> = owned.iter().map(String::as_str).collect();
        let values: Vec<u32> = (0..keys.len()).map(|_| rng.below(1 << 30) as u32).collect();
        let parts = build(&keys, &values).unwrap();
        let trie = parts.as_trie().unwrap();
        for (key, &value) in keys.iter().zip(&values) {
            assert_eq!(trie.get(key).unwrap(), Some(value), "key {key:?}");
        }
    }
}

#[test]
fn prefix_keys_come_in_order() {
    let keys = ["東", "東京", "東京都"];
    let parts = build_indexed(&keys);
    let trie = parts.as_trie().unwrap();
    assert_eq!(search(&trie, "東京都に住む", 0), vec![(3, 0), (6, 1), (9, 2)]);
    assert_eq!(search(&trie, "東京に住む", 0), vec![(3, 0), (6, 1)]);
    assert_eq!(search(&trie, "京都", 0), vec![]);
}
