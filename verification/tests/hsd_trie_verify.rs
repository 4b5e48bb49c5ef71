use std::collections::{BTreeMap, HashMap};

use hasami::hsd::trie::{
    build, build_with_progress, kind, leaf_base, Node, Trie, TrieError, TrieParts, BASE_MASK,
    HAS_END, KIND_INTERNAL, KIND_LEAF, KIND_TAIL, PAYLOAD_MASK, TABLE_LEN, UNUSED, VALUE_LIMIT,
};

/// A deterministic xorshift64 generator.
struct XorShift(u64);

impl XorShift {
    fn next(&mut self) -> u64 {
        let mut x = self.0;
        x ^= x << 13;
        x ^= x >> 7;
        x ^= x << 17;
        self.0 = x;
        x
    }

    fn below(&mut self, n: usize) -> usize {
        (self.next() % (n as u64).max(1)) as usize
    }
}

fn build_indexed(keys: &[&str]) -> TrieParts {
    let values: Vec<u32> = (0..keys.len() as u32).collect();
    build(keys, &values).unwrap()
}

fn search(trie: &Trie, text: &str, start: usize) -> Vec<(usize, u32)> {
    let mut found: Vec<(usize, u32)> = Vec::new();
    trie.common_prefix_search(text, start, &mut found).unwrap();
    found
}

fn codes_of(trie: &Trie, text: &str) -> (Vec<u16>, Vec<u32>) {
    let codes = text.chars().map(|c| trie.char_code(c) as u16).collect();
    let mut offsets: Vec<u32> = text.char_indices().map(|(p, _)| p as u32).collect();
    offsets.push(text.len() as u32);
    (codes, offsets)
}

fn search_codes(trie: &Trie, text: &str, start: usize) -> (Vec<(usize, u32)>, Result<(), TrieError>) {
    let (codes, offsets) = codes_of(trie, text);
    let Some(start_char) = offsets.iter().position(|&o| o as usize == start) else {
        return (Vec::new(), Ok(()));
    };
    let mut by_char: Vec<(usize, u32)> = Vec::new();
    let result = trie.common_prefix_search_codes(text, &codes, &offsets, start_char, &mut by_char);
    let found = by_char.iter().map(|&(end, v)| (offsets[end] as usize, v)).collect();
    (found, result)
}

fn brute_force(map: &HashMap<String, u32>, text: &str, start: usize) -> Vec<(usize, u32)> {
    text[start..]
        .char_indices()
        .map(|(i, c)| start + i + c.len_utf8())
        .filter_map(|end| map.get(&text[start..end]).map(|&v| (end, v)))
        .collect()
}

fn assert_round_trip(keys: &[&str], values: &[u32], parts: &TrieParts) {
    let trie = parts.as_trie().unwrap();
    let stats = trie.verify(VALUE_LIMIT).unwrap();
    assert_eq!(stats.keys, keys.len());
    let mut listed = trie.keys().unwrap();
    listed.sort_by(|a, b| a.1.cmp(&b.1));
    let expected: Vec<(u32, String)> = values
        .iter()
        .zip(keys)
        .map(|(&v, k)| (v, k.to_string()))
        .collect();
    assert_eq!(listed, expected);
    for (key, &value) in keys.iter().zip(values) {
        assert_eq!(trie.get(key).unwrap(), Some(value), "key {key:?}");
    }
}

fn node_at<'p>(parts: &'p TrieParts, key: &str) -> (usize, &'p Node) {
    let trie = parts.as_trie().unwrap();
    let mut slot = 0usize;
    for c in key.chars() {
        let base = (parts.nodes[slot].base & BASE_MASK) as usize;
        let next = base + trie.char_code(c) as usize;
        assert_eq!(parts.nodes[next].check, slot as u32, "{key:?} at {c:?}");
        slot = next;
    }
    (slot, &parts.nodes[slot])
}

const ALPHABET: &[char] = &['a', 'b', 'c', 'é', 'あ', 'い', 'ー', '東', '京', '𠮷', '😀'];

fn random_keys(rng: &mut XorShift, count: usize, max_len: usize) -> Vec<String> {
    let mut keys: Vec<String> = (0..count)
        .map(|_| {
            let len = 1 + rng.below(max_len);
            (0..len)
                .map(|_| ALPHABET[rng.below(ALPHABET.len())])
                .collect()
        })
        .collect();
    keys.sort();
    keys.dedup();
    keys
}

fn random_text(rng: &mut XorShift, len: usize) -> String {
    (0..len)
        .map(|_| {
            let i = rng.below(ALPHABET.len() + 1);
            ALPHABET.get(i).copied().unwrap_or('Z')
        })
        .collect()
}

fn fixture() -> (Vec<String>, TrieParts) {
    let mut owned: Vec<String> = ["ab", "abc", "abd", "b", "東", "東京", "東京都", "😀", "𠮷野家"]
        .iter()
        .map(|s| s.to_string())
        .collect();
    owned.push(format!("z{}", "字".repeat(60)));
    owned.sort();
    let keys: Vec<&str> = owned.iter().map(String::as_str).collect();
    let parts = build_indexed(&keys);
    (owned, parts)
}

fn verify_err(parts: &TrieParts) -> String {
    let trie = match parts.as_trie() {
        Ok(trie) => trie,
        Err(e) => return e.message(),
    };
    match trie.verify(VALUE_LIMIT) {
        Ok(stats) => panic!("verify passed: {stats:?}"),
        Err(e) => {
            assert!(matches!(e, TrieError::Corrupt(_)));
            e.message()
        }
    }
}

fn search_err(parts: &TrieParts, text: &str) -> String {
    let trie = parts.as_trie().unwrap();
    let mut sink: Vec<(usize, u32)> = Vec::new();
    trie.common_prefix_search(text, 0, &mut sink)
        .unwrap_err()
        .message()
}

fn first_slot(parts: &TrieParts, pred: impl Fn(usize, &Node) -> bool) -> usize {
    parts
        .nodes
        .iter()
        .enumerate()
        .position(|(i, n)| n.check != UNUSED && pred(i, n))
        .unwrap()
}

#[test]
fn test_prefix_keys_are_all_reported() {
    let keys = ["東", "東京", "東京都"];
    let parts = build_indexed(&keys);
    let trie = parts.as_trie().unwrap();
    assert_eq!(
        search(&trie, "東京都に住む", 0),
        vec![(3, 0), (6, 1), (9, 2)]
    );
    assert_eq!(search(&trie, "東京に住む", 0), vec![(3, 0), (6, 1)]);
    assert_eq!(search(&trie, "京都", 0), vec![]);
    assert_round_trip(&keys, &[0, 1, 2], &parts);
}

#[test]
fn test_node_with_end_and_children() {
    let keys = ["ab", "abc", "abd", "b"];
    let parts = build_indexed(&keys);
    let trie = parts.as_trie().unwrap();
    // "ab" は END 子と c・d の子を持つ INTERNAL
    let (slot, node) = node_at(&parts, "ab");
    assert_eq!(kind(node.base), KIND_INTERNAL);
    assert_ne!(node.base & HAS_END, 0);
    let end = parts.nodes[(node.base & BASE_MASK) as usize];
    assert_eq!(end.check, slot as u32);
    assert_eq!(end.base, leaf_base(0));
    // "abc" と "abd" は残りが空の LEAF
    assert_eq!(kind(node_at(&parts, "abc").1.base), KIND_LEAF);
    assert_eq!(search(&trie, "abcd", 0), vec![(2, 0), (3, 1)]);
    assert_eq!(search(&trie, "abx", 0), vec![(2, 0)]);
    assert_eq!(search(&trie, "a", 0), vec![]);
    assert_eq!(trie.get("a").unwrap(), None);
    assert_round_trip(&keys, &[0, 1, 2, 3], &parts);
}

#[test]
fn test_long_tail_uses_multibyte_varint() {
    let long = format!("x{}", "あ".repeat(100));
    let keys = [long.as_str(), "y"];
    let parts = build_indexed(&keys);
    let trie = parts.as_trie().unwrap();
    // "x" の先は 300 バイトの TAIL で、長さの varint は 2 バイト (0xAC 0x02)
    let (_, node) = node_at(&parts, "x");
    assert_eq!(kind(node.base), KIND_TAIL);
    let off = (node.base & PAYLOAD_MASK) as usize;
    assert_eq!(&parts.tails[off..off + 4], &0u32.to_le_bytes());
    assert_eq!(&parts.tails[off + 4..off + 6], &[0xAC, 0x02]);
    assert_eq!(parts.tails.len(), 4 + 2 + 300);

    let text = format!("{long}です");
    assert_eq!(search(&trie, &text, 0), vec![(long.len(), 0)]);
    // 入力が suffix より短い・途中で違う
    assert_eq!(search(&trie, &long[..long.len() - 3], 0), vec![]);
    let differ = format!("x{}い", "あ".repeat(99));
    assert_eq!(search(&trie, &differ, 0), vec![]);
    assert_eq!(trie.get(&long).unwrap(), Some(0));
    assert_eq!(trie.get(&differ).unwrap(), None);
    assert_round_trip(&keys, &[0, 1], &parts);
}

#[test]
fn test_four_byte_utf8() {
    let keys = ["😀", "😀😀", "𠮷", "𠮷野家"];
    let parts = build_indexed(&keys);
    let trie = parts.as_trie().unwrap();
    assert_eq!(search(&trie, "😀😀😀", 0), vec![(4, 0), (8, 1)]);
    assert_eq!(search(&trie, "𠮷野家で", 0), vec![(4, 2), (10, 3)]);
    assert_eq!(search(&trie, "😀😀😀", 4), vec![(8, 0), (12, 1)]);
    assert_round_trip(&keys, &[0, 1, 2, 3], &parts);
}

#[test]
fn test_single_key() {
    for key in ["a", "abc", "東京都"] {
        let parts = build(&[key], &[7]).unwrap();
        let trie = parts.as_trie().unwrap();
        let first = key.chars().next().unwrap();
        let (_, node) = node_at(&parts, &first.to_string());
        let expected_kind = if key.chars().count() == 1 {
            KIND_LEAF
        } else {
            KIND_TAIL
        };
        assert_eq!(kind(node.base), expected_kind);
        let text = format!("{key}{key}");
        assert_eq!(search(&trie, &text, 0), vec![(key.len(), 7)]);
        assert_eq!(search(&trie, &text, key.len()), vec![(text.len(), 7)]);
        assert_eq!(
            search(&trie, &key[..first.len_utf8()], 0).len(),
            usize::from(key.chars().count() == 1)
        );
        assert_round_trip(&[key], &[7], &parts);
    }
}

#[test]
fn test_many_keys_with_same_prefix() {
    let mut owned: Vec<String> = (0..1000).map(|i| format!("接頭辞{i}")).collect();
    owned.push("接頭辞".to_string());
    owned.push("接頭".to_string());
    owned.sort();
    let keys: Vec<&str> = owned.iter().map(String::as_str).collect();
    let values: Vec<u32> = (0..keys.len() as u32).map(|v| v * 3).collect();
    let parts = build(&keys, &values).unwrap();
    assert_round_trip(&keys, &values, &parts);
    let trie = parts.as_trie().unwrap();
    let map: HashMap<String, u32> = owned.iter().cloned().zip(values.iter().copied()).collect();
    for text in ["接頭辞9990", "接頭辞12x", "接頭x", "接頭辞"] {
        assert_eq!(
            search(&trie, text, 0),
            brute_force(&map, text, 0),
            "{text:?}"
        );
    }
}

#[test]
fn test_random_search_matches_brute_force() {
    let mut rng = XorShift(0x9E37_79B9_7F4A_7C15);
    for round in 0..300 {
        let count = 1 + rng.below(200);
        let max_len = 1 + rng.below(if round % 10 == 0 { 40 } else { 6 });
        let owned = random_keys(&mut rng, count, max_len);
        let keys: Vec<&str> = owned.iter().map(String::as_str).collect();
        let values: Vec<u32> = (0..keys.len()).map(|_| rng.below(1 << 30) as u32).collect();
        let parts = build(&keys, &values).unwrap();
        assert_round_trip(&keys, &values, &parts);
        let trie = parts.as_trie().unwrap();
        let map: HashMap<String, u32> =
            owned.iter().cloned().zip(values.iter().copied()).collect();
        for _ in 0..20 {
            let len = rng.below(12);
            let text = random_text(&mut rng, len);
            // キーそのものや、キーを伸ばした文も試す
            let text = if rng.below(2) == 0 {
                let k = &owned[rng.below(owned.len())];
                format!("{k}{text}")
            } else {
                text
            };
            for (start, _) in text.char_indices() {
                let expected = brute_force(&map, &text, start);
                assert_eq!(
                    search(&trie, &text, start),
                    expected,
                    "round {round} text {text:?} start {start}"
                );
                assert_eq!(
                    search_codes(&trie, &text, start),
                    (expected, Ok(())),
                    "codes: round {round} text {text:?} start {start}"
                );
            }
        }
    }
}

#[test]
fn test_progress_reports() {
    let owned: Vec<String> = (0..200_000).map(|i| format!("{i:08}")).collect();
    let keys: Vec<&str> = owned.iter().map(String::as_str).collect();
    let values: Vec<u32> = (0..keys.len() as u32).collect();
    let mut calls: Vec<(usize, usize)> = Vec::new();
    let parts = build_with_progress(&keys, &values, &mut calls).unwrap();
    assert_eq!(calls.first(), Some(&(0, keys.len())));
    assert_eq!(calls.last(), Some(&(keys.len(), keys.len())));
    assert!(calls.len() >= 4);
    assert!(calls.windows(2).all(|w| w[0].0 <= w[1].0));
    let trie = parts.as_trie().unwrap();
    assert_eq!(trie.verify(VALUE_LIMIT).unwrap().keys, keys.len());
}

#[test]
fn test_too_many_distinct_chars() {
    // 補助面の 65536 文字は符号 1..=65535 に収まらない
    let owned: Vec<String> = (0x10000u32..0x20000)
        .map(|cp| char::from_u32(cp).unwrap().to_string())
        .collect();
    let keys: Vec<&str> = owned.iter().map(String::as_str).collect();
    let values = vec![0u32; keys.len()];
    let err = build(&keys, &values).unwrap_err();
    assert!(
        matches!(err, TrieError::Build(ref m) if m.contains("distinct characters")),
        "{err:?}"
    );
    // 65535 文字なら構築できる
    let parts = build(&keys[..65535], &values[..65535]).unwrap();
    let trie = parts.as_trie().unwrap();
    assert_eq!(trie.max_code(), 65535);
    assert_eq!(trie.verify(VALUE_LIMIT).unwrap().keys, 65535);
}

#[test]
fn test_verify_accepts_fixture() {
    let (owned, parts) = fixture();
    let stats = parts.as_trie().unwrap().verify(VALUE_LIMIT).unwrap();
    assert_eq!(stats.keys, owned.len());
    assert_eq!(stats.used, stats.internal + stats.leaves + stats.tails);
    assert_eq!(stats.node_count, parts.nodes.len());
    assert_eq!(stats.tail_bytes, parts.tails.len());
    assert!(stats.tails > 0 && stats.internal > 1);
}

#[test]
fn test_verify_detects_bad_root() {
    let (_, mut parts) = fixture();
    parts.nodes[0].base = leaf_base(0);
    assert!(verify_err(&parts).contains("root"));
    let (_, mut parts) = fixture();
    parts.nodes[0].base |= HAS_END;
    assert!(verify_err(&parts).contains("END"));
    let (_, mut parts) = fixture();
    parts.nodes[0].check = 5;
    assert!(verify_err(&parts).contains("root"));
}

#[test]
fn test_verify_detects_kind_01() {
    let (_, mut parts) = fixture();
    let (slot, _) = node_at(&parts, "東");
    parts.nodes[slot].base = (0b01 << 30) | 3;
    assert!(verify_err(&parts).contains("kind 01"));
    assert!(search_err(&parts, "東京").contains("kind 01"));
}

#[test]
fn test_verify_detects_bad_end_child() {
    let (_, parts) = fixture();
    let (slot, node) = node_at(&parts, "ab");
    let end = (node.base & BASE_MASK) as usize;
    // END 子が LEAF でない
    let mut broken = parts.clone();
    broken.nodes[end].base = KIND_TAIL << 30;
    assert!(verify_err(&broken).contains("END"));
    assert!(search_err(&broken, "abc").contains("HAS_END"));
    // END 子の check が親でない
    let mut broken = parts.clone();
    broken.nodes[end].check = slot as u32 + 1;
    assert!(!verify_err(&broken).is_empty());
    assert!(search_err(&broken, "abc").contains("HAS_END"));
    // HAS_END を持たない親の END 位置に LEAF がある
    let mut broken = parts.clone();
    broken.nodes[slot].base &= !HAS_END;
    assert!(verify_err(&broken).contains("no HAS_END"));
}

#[test]
fn test_verify_detects_base_out_of_range() {
    let (_, mut parts) = fixture();
    let n = parts.as_trie().unwrap().max_code() as usize;
    let (slot, _) = node_at(&parts, "東");
    let len = parts.nodes.len();
    parts.nodes[slot].base = (len - n) as u32; // base + N == ノード数
    assert!(verify_err(&parts).contains("out of range"));
    assert!(search_err(&parts, "東京").contains("out of range"));
    parts.nodes[slot].base = 0;
    assert!(verify_err(&parts).contains("out of range"));
}

#[test]
fn test_verify_detects_broken_tail() {
    let (owned, parts) = fixture();
    let long = owned.iter().find(|k| k.starts_with('z')).unwrap().clone();
    let (slot, node) = node_at(&parts, "z");
    assert_eq!(kind(node.base), KIND_TAIL);
    let off = (node.base & PAYLOAD_MASK) as usize;

    // オフセットが範囲外
    let mut broken = parts.clone();
    broken.nodes[slot].base = (KIND_TAIL << 30) | broken.tails.len() as u32;
    assert!(verify_err(&broken).contains("past the end"));
    assert!(search_err(&broken, &long).contains("past the end"));

    // varint が 5 バイトを超える
    let mut broken = parts.clone();
    broken.tails[off + 4..off + 9].fill(0x80);
    assert!(verify_err(&broken).contains("varint"));
    assert!(search_err(&broken, &long).contains("varint"));

    // 長さが tails を越える
    let mut broken = parts.clone();
    broken.tails[off + 4..off + 7].copy_from_slice(&[0xFF, 0xFF, 0x03]);
    assert!(verify_err(&broken).contains("past the end"));

    // 長さ 0
    let mut broken = parts.clone();
    broken.tails[off + 4] = 0;
    assert!(verify_err(&broken).contains("length is 0"));

    // UTF-8 として不正（検索は一致しなければ気づかない）
    let mut broken = parts.clone();
    let last = off + 4 + 2 + (long.len() - 1) - 1;
    broken.tails[last] = 0xFF;
    assert!(verify_err(&broken).contains("UTF-8"));
    // 文字の途中で切れた suffix は、一致したときに検索が検出する
    let mut broken = parts.clone();
    let len = long.len() - 1 - 1;
    broken.tails[off + 4..off + 6]
        .copy_from_slice(&[(len as u8 & 0x7F) | 0x80, (len >> 7) as u8]);
    assert!(verify_err(&broken).contains("UTF-8"));
    assert!(search_err(&broken, &long).contains("UTF-8"));

    // 値が 2^30 以上
    let mut broken = parts.clone();
    broken.tails[off..off + 4].copy_from_slice(&VALUE_LIMIT.to_le_bytes());
    assert!(verify_err(&broken).contains("2^30"));
    assert!(search_err(&broken, &long).contains("2^30"));
}

#[test]
fn test_verify_detects_value_limit() {
    let (owned, parts) = fixture();
    let trie = parts.as_trie().unwrap();
    let n = owned.len() as u32;
    assert!(trie.verify(n).is_ok());
    let err = trie.verify(n - 1).unwrap_err().message();
    assert!(err.contains("not below"), "{err}");
}

#[test]
fn test_verify_detects_unused_slot_with_base() {
    let (_, mut parts) = fixture();
    let slot = parts.nodes.iter().position(|n| n.check == UNUSED).unwrap();
    parts.nodes[slot].base = 1;
    assert!(verify_err(&parts).contains("unused slot"));
}

#[test]
fn test_verify_detects_cycle_and_detached_nodes() {
    // 予約スロット 2・3 で互いを親とする閉路を作る（root からは到達できない）
    let (_, mut parts) = fixture();
    assert!(parts.as_trie().unwrap().max_code() >= 3);
    parts.nodes[2] = Node { base: 2, check: 3 };
    parts.nodes[3] = Node { base: 1, check: 2 };
    assert!(verify_err(&parts).contains("not reachable"));

    // 自分自身を親とする
    let (_, mut parts) = fixture();
    parts.nodes[2] = Node { base: 1, check: 2 };
    assert!(verify_err(&parts).contains("not reachable"));

    // 親が LEAF
    let (_, mut parts) = fixture();
    let leaf = first_slot(&parts, |_, n| kind(n.base) == KIND_LEAF);
    parts.nodes[2] = Node {
        base: leaf_base(0),
        check: leaf as u32,
    };
    assert!(verify_err(&parts).contains("not an INTERNAL"));

    // 親の子の範囲の外を指す
    let (_, mut parts) = fixture();
    parts.nodes[2] = Node {
        base: leaf_base(0),
        check: 0,
    };
    assert!(verify_err(&parts).contains("not among its children"));
}

#[test]
fn test_verify_detects_internal_with_one_key() {
    // 子が END だけの INTERNAL（LEAF にすべきもの）
    let (_, mut parts) = fixture();
    let (slot, node) = node_at(&parts, "b");
    assert_eq!(kind(node.base), KIND_LEAF);
    let value = node.base & PAYLOAD_MASK;
    parts.nodes[slot].base = HAS_END | 1;
    parts.nodes[1] = Node {
        base: leaf_base(value),
        check: slot as u32,
    };
    // 検索としては正しく引ける
    assert_eq!(search(&parts.as_trie().unwrap(), "bb", 0), vec![(1, value)]);
    assert!(verify_err(&parts).contains("must be a LEAF or TAIL"));
}

#[test]
fn test_verify_detects_char_map_errors() {
    let (_, parts) = fixture();
    let trie = parts.as_trie().unwrap();
    let num_tables = (parts.tables.len() / TABLE_LEN) as u16;
    let table_a = parts.blocks[0] as usize;
    let code_a = trie.char_code('a') as usize;
    let code_b = trie.char_code('b') as usize;

    // block が表の範囲外
    let mut broken = parts.clone();
    broken.blocks[0x41] = num_tables;
    assert!(verify_err(&broken).contains("refers to table"));
    // 表 0 が非ゼロ
    let mut broken = parts.clone();
    broken.tables[5] = 1;
    assert!(verify_err(&broken).contains("table 0"));
    // 符号の重複
    let mut broken = parts.clone();
    broken.tables[table_a * TABLE_LEN + 'c' as usize] = code_a as u16;
    assert!(verify_err(&broken).contains("assigned to both"));
    // 符号の欠番（最大でない符号を消す）
    let mut broken = parts.clone();
    let max = trie.max_code() as usize;
    let victim = if code_b != max { 'b' } else { 'a' };
    broken.tables[table_a * TABLE_LEN + victim as usize] = 0;
    assert!(verify_err(&broken).contains("not assigned"));
    // 表の共有・参照されない表
    let mut broken = parts.clone();
    broken.blocks[0x41] = broken.blocks[0];
    assert!(verify_err(&broken).contains("shared"));
    let mut broken = parts.clone();
    broken.tables.extend_from_slice(&[0; TABLE_LEN]);
    assert!(verify_err(&broken).contains("not referenced"));
    // サロゲートへの割り当て
    let mut broken = parts.clone();
    broken.blocks[0xD8] = num_tables;
    broken
        .tables
        .extend((0..TABLE_LEN).map(|i| if i == 0 { max as u16 + 1 } else { 0 }));
    assert!(verify_err(&broken).contains("surrogate"));
    // 長さの不正
    let mut broken = parts.clone();
    broken.blocks.pop();
    assert!(verify_err(&broken).contains("blocks"));
    let mut broken = parts.clone();
    broken.tables.pop();
    assert!(verify_err(&broken).contains("multiple"));
}

#[test]
fn test_from_validated_with_garbage_does_not_panic() {
    let (owned, parts) = fixture();
    let bad_root = [Node {
        base: leaf_base(1),
        check: 0,
    }];
    let self_loop = [Node { base: 1, check: 0 }, Node { base: 1, check: 0 }];
    let empty_nodes: &[Node] = &[];
    type Raw<'p> = (&'p [u16], &'p [u16], &'p [Node], &'p [u8]);
    let cases: [Raw; 5] = [
        (&[], &[], empty_nodes, &[]),
        (&parts.blocks, &parts.tables, empty_nodes, &[]),
        (&parts.blocks, &parts.tables, &bad_root, &parts.tails),
        (&parts.blocks, &parts.tables, &self_loop, &[]),
        (
            &parts.blocks[..10],
            &parts.tables[..300],
            &parts.nodes,
            &parts.tails[..5],
        ),
    ];
    let texts: Vec<String> = owned.iter().map(|k| format!("{k}{k}")).collect();
    for (blocks, tables, nodes, tails) in cases {
        for max_code in [0, 1, 3, 65535, u32::MAX] {
            let view = Trie::from_validated(blocks, tables, nodes, tails, max_code);
            for text in &texts {
                for (start, _) in text.char_indices() {
                    let mut last = start;
                    let mut found: Vec<(usize, u32)> = Vec::new();
                    let _ = view.common_prefix_search(text, start, &mut found);
                    for &(end, _) in &found {
                        assert!(end > last && text.is_char_boundary(end));
                        last = end;
                    }
                }
                let _ = view.get(text);
            }
            assert!(view.keys().is_err());
            assert!(view.verify(VALUE_LIMIT).is_err());
        }
    }
}

#[test]
fn test_from_validated_matches_new() {
    let (owned, parts) = fixture();
    let trie = parts.as_trie().unwrap();
    let view = Trie::from_validated(
        &parts.blocks,
        &parts.tables,
        &parts.nodes,
        &parts.tails,
        trie.max_code(),
    );
    for key in &owned {
        assert_eq!(view.get(key).unwrap(), trie.get(key).unwrap());
    }
    assert_eq!(
        view.verify(VALUE_LIMIT).unwrap(),
        trie.verify(VALUE_LIMIT).unwrap()
    );
    // 最大符号が表と食い違うビューは keys・verify が拒む
    let wrong = Trie::from_validated(
        &parts.blocks,
        &parts.tables,
        &parts.nodes,
        &parts.tails,
        trie.max_code() + 1,
    );
    assert!(wrong.verify(VALUE_LIMIT).is_err());
    assert!(wrong.keys().is_err());
}

#[test]
fn test_keys_of_prefix_heavy_set() {
    // 同じ接頭辞・END・TAIL が入り組んだ集合で keys() が元に戻る
    let mut rng = XorShift(4242);
    let mut owned = random_keys(&mut rng, 800, 4);
    let extra: Vec<String> = owned
        .iter()
        .take(50)
        .map(|k| format!("{k}{k}{k}"))
        .collect();
    owned.extend(extra);
    owned.sort();
    owned.dedup();
    let keys: Vec<&str> = owned.iter().map(String::as_str).collect();
    let values: Vec<u32> = (0..keys.len() as u32).rev().collect();
    let parts = build(&keys, &values).unwrap();
    assert_round_trip(&keys, &values, &parts);
    let listed: BTreeMap<String, u32> = parts
        .as_trie()
        .unwrap()
        .keys()
        .unwrap()
        .into_iter()
        .map(|(v, k)| (k, v))
        .collect();
    assert_eq!(listed.len(), keys.len());
}

#[test]
fn rejected_input_reports_nothing() {
    let mut calls: Vec<(usize, usize)> = Vec::new();
    assert!(build_with_progress(&["b", "a"], &[0, 1], &mut calls).is_err());
    assert!(calls.is_empty());
    assert!(build_with_progress(&["a"], &[0], &mut calls).is_ok());
    assert_eq!(calls, vec![(0, 1), (1, 1)]);
}
