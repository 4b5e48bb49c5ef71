use hasami::sentence::chars::is_sentence_ender;
use hasami::sentence::exceptions::{
    Matcher, MAX_WORD_CHARS, MAX_WORD_ENDERS, builtin_exceptions, extract_candidates, is_matchable,
    is_particle,
};

fn guards(matcher: &Matcher, text: &str, pos: usize) -> bool {
    let chars: Vec<char> = text.chars().collect();
    let k = text[..pos].chars().count();
    matcher.guards(&chars, k)
}

fn guards_naive(words: &[&str], text: &str, pos: usize) -> bool {
    let c = text[pos..].chars().next().unwrap();
    let after = pos + c.len_utf8();
    let mut ends_here = false;
    for word in words.iter().filter(|w| w.chars().any(is_sentence_ender)) {
        let starts = text
            .char_indices()
            .map(|(i, _)| i)
            .filter(|&i| text[i..].starts_with(word));
        for start in starts {
            let end = start + word.len();
            if start <= pos && after < end {
                return true;
            }
            if after == end {
                ends_here = true;
            }
        }
    }
    ends_here && text[after..].chars().next().is_some_and(is_particle)
}

#[test]
fn test_extract_candidates_keeps_words_with_enders() {
    let words = extract_candidates(&[
        "モーニング娘。",
        "Yahoo!",
        "Yahoo!ニュース",
        "Hey!Say!JUMP",
        "けいおん!",
        "ご注文はうさぎですか?",
        "猫",
        "東京都",
    ]);
    assert_eq!(
        words,
        vec![
            "Hey!Say!JUMP",
            "Yahoo!",
            "Yahoo!ニュース",
            "けいおん!",
            "ご注文はうさぎですか?",
            "モーニング娘。",
        ]
    );
}

#[test]
fn test_extract_candidates_excludes_symbols_short_and_leading_enders() {
    let words = extract_candidates(&[
        "!?",
        "(^^)!",
        "…！",
        "娘",
        "!",
        "！ニュース",
        "。はい",
        "#タグ!",
        " Yahoo!",
        "改\n行!",
        "〇〇!",
        "ｵｯｹｰ｡",
    ]);
    assert_eq!(words, vec!["〇〇!", "ｵｯｹｰ｡"]);
}

#[test]
fn test_extract_candidates_dedups_and_sorts() {
    let words = extract_candidates(&["b!", "a!", "b!", "a!"]);
    assert_eq!(words, vec!["a!", "b!"]);
}

#[test]
fn test_builtin_exceptions_follow_extraction_rules() {
    let words: Vec<&str> = builtin_exceptions();
    assert!(!words.is_empty());
    assert_eq!(extract_candidates(&words), words);
}

#[test]
fn test_builtin_exceptions_contain_known_words() {
    let words: Vec<&str> = builtin_exceptions();
    for word in [
        "モーニング娘。",
        "Yahoo!",
        "Yahoo!ニュース",
        "Hey!Say!JUMP",
        "けいおん!",
        "ご注文はうさぎですか?",
        "やはり俺の青春ラブコメはまちがっている。",
    ] {
        assert!(words.binary_search(&word).is_ok(), "{word}");
    }
}

#[test]
fn test_guards_inside_and_at_end_of_words() {
    let words = ["Yahoo!", "Yahoo!ニュース", "モーニング娘。", "けいおん!!"];
    let matcher = Matcher::new(&words);
    assert_eq!(matcher.len(), 4);
    let cases = [
        ("Yahoo!ニュースを見た", "Yahoo".len(), true),
        ("Yahoo!の株価", "Yahoo".len(), true),
        ("Yahoo!次", "Yahoo".len(), false),
        ("Yahoo!", "Yahoo".len(), false),
        ("モーニング娘。のライブ", "モーニング娘".len(), true),
        ("モーニング娘。次", "モーニング娘".len(), false),
        ("娘。のライブ", "娘".len(), false),
        ("けいおん!!次", "けいおん".len(), true),
        ("けいおん!!次", "けいおん!".len(), false),
        ("けいおん!!の話", "けいおん!".len(), true),
    ];
    for (text, pos, expected) in cases {
        assert_eq!(guards(&matcher, text, pos), expected, "{text} @ {pos}");
        assert_eq!(guards_naive(&words, text, pos), expected, "{text} @ {pos}");
    }
}

#[test]
fn test_matcher_ignores_words_without_enders() {
    let matcher = Matcher::new(&["猫", "", "犬!"]);
    assert_eq!(matcher.len(), 1);
    assert!(guards(&matcher, "犬!の", "犬".len()));
    assert!(!guards(&matcher, "猫!の", "猫".len()));
}

#[test]
fn test_empty_matcher_never_guards() {
    let matcher = Matcher::new(&[]);
    assert_eq!(matcher.len(), 0);
    assert!(!guards(&matcher, "Yahoo!の", 5));
}

#[test]
fn test_many_tails_after_the_same_key() {
    let tails = [
        "ア",
        "アン",
        "アンパン",
        "アンパンマン",
        "アンパンマンの歌",
        "アイ",
        "カ",
        "カレー",
        "ン",
        "アンコ",
        "アンパ",
        "アンパンマン2",
    ];
    let words: Vec<String> = tails.iter().map(|t| format!("それいけ!{t}")).collect();
    let refs: Vec<&str> = words.iter().map(String::as_str).collect();
    let matcher = Matcher::new(&refs);
    let pos = "それいけ".len();
    for after in [
        "アンパンマンの歌を歌う",
        "アンパンマンを見る",
        "アンパを",
        "アンパ",
        "アンダー",
        "アウト",
        "カレーパン",
        "キャラ",
        "ンン",
        "",
        "Z",
    ] {
        let text = format!("それいけ!{after}");
        assert_eq!(guards(&matcher, &text, pos), guards_naive(&refs, &text, pos), "{text}");
    }
}

#[test]
fn test_tails_sharing_long_prefixes_are_checked_quickly() {
    let m = 200;
    let words: Vec<String> = (0..m).map(|k| format!("X。{}a", "z".repeat(k))).collect();
    let refs: Vec<&str> = words.iter().map(String::as_str).collect();
    let matcher = Matcher::new(&refs);
    for tail in [
        "z".repeat(m),
        format!("{}a", "z".repeat(m / 2)),
        "zz".to_string(),
        "a".to_string(),
    ] {
        let text = format!("X。{tail}");
        let pos = "X".len();
        assert_eq!(guards(&matcher, &text, pos), guards_naive(&refs, &text, pos), "{text}");
    }
}

#[test]
fn test_words_over_the_limits_are_ignored() {
    let enders_ok = format!("語{}", "!".repeat(MAX_WORD_ENDERS));
    let enders_over = format!("語{}", "!".repeat(MAX_WORD_ENDERS + 1));
    let chars_ok = format!("{}!", "あ".repeat(MAX_WORD_CHARS - 1));
    let chars_over = format!("{}!", "あ".repeat(MAX_WORD_CHARS));
    assert!(is_matchable(&enders_ok));
    assert!(!is_matchable(&enders_over));
    assert!(is_matchable(&chars_ok));
    assert!(!is_matchable(&chars_over));
    let matcher = Matcher::new(&[
        enders_ok.as_str(),
        enders_over.as_str(),
        chars_ok.as_str(),
        chars_over.as_str(),
    ]);
    assert_eq!(matcher.len(), 2);
    assert!(builtin_exceptions().iter().all(|w| is_matchable(w)));
}

#[test]
fn test_dense_enders_with_ender_heavy_word_stay_linear() {
    let word = "。".repeat(MAX_WORD_ENDERS);
    let matcher = Matcher::new(&[word.as_str()]);
    let text = "。".repeat(200_000);
    let chars: Vec<char> = text.chars().collect();
    let guarded = (0..chars.len()).filter(|&k| matcher.guards(&chars, k)).count();
    assert_eq!(guarded, 200_000 - 1);
}

#[test]
fn words_with_line_breaks_stay_matchable_but_not_indexable() {
    assert!(is_matchable("改\n行!"));
    assert!(!hasami::sentence::index::is_matchable("改\n行!"));
    assert!(!hasami::sentence::index::is_matchable("改\r行!"));
    assert!(hasami::sentence::index::is_matchable("改行!"));
}
