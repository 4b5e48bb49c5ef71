use hasami::sentence::marks::{CharKind, ascii_run_is_ender, bracket, classify, closing_bracket, is_closing_bracket};
use hasami::sentence::chars::is_sentence_ender;
use hasami::sentence::{LineBreaks, SentenceEnd, SplitOptions, Splitter, split};

fn texts(text: &str) -> Vec<&str> {
    texts_with(text, &SplitOptions::default())
}

fn texts_with<'t>(text: &'t str, options: &SplitOptions<'_>) -> Vec<&'t str> {
    split(text, options)
        .into_iter()
        .map(|s| &text[s.range])
        .collect()
}

fn chunks(text: &str) -> Vec<&str> {
    let mut start = 0;
    Splitter::default()
        .chunk_ends(text)
        .into_iter()
        .map(|end| {
            let chunk = &text[start..end];
            start = end;
            chunk
        })
        .collect()
}

#[test]
fn test_examples_from_requirements() {
    let cases: [(&str, &[&str]); 9] = [
        (
            "これが最初の文。これは二番目の文。",
            &["これが最初の文。", "これは二番目の文。"],
        ),
        ("え、本当…！？嘘だろ…", &["え、本当…！？", "嘘だろ…"]),
        (
            "「うまく行くかな？」と思った。次の文。",
            &["「うまく行くかな？」と思った。", "次の文。"],
        ),
        (
            "1) 手順を読む。「閉じ忘れ。次の文。",
            &["1) 手順を読む。", "「閉じ忘れ。", "次の文。"],
        ),
        ("終わりだ。」次だ。", &["終わりだ。」", "次だ。"]),
        (
            "https://example.com/?q=1 を開く。本当?すごい。",
            &["https://example.com/?q=1 を開く。", "本当?", "すごい。"],
        ),
        ("Really? Yes!", &["Really?", "Yes!"]),
        ("第一文．第二文．", &["第一文．", "第二文．"]),
        ("Yahoo!ニュースを見た。", &["Yahoo!ニュースを見た。"]),
    ];
    for (input, expected) in cases {
        assert_eq!(texts(input), expected, "{input}");
    }
}

#[test]
fn test_acceptance_criteria_of_exceptions() {
    assert_eq!(texts("Hey!Say!JUMPのライブ。"), ["Hey!Say!JUMPのライブ。"]);
    assert_eq!(texts("Yahoo!ニュースを見た。"), ["Yahoo!ニュースを見た。"]);
    assert_eq!(
        texts("モーニング娘。のライブ。"),
        ["モーニング娘。のライブ。"]
    );
    assert_eq!(
        texts("好きなのはモーニング娘。次の話題。"),
        ["好きなのはモーニング娘。", "次の話題。"]
    );
}

#[test]
fn test_splits_on_enders() {
    assert_eq!(
        texts("これが最初の文。これは二番目の文。これが最後の文。"),
        ["これが最初の文。", "これは二番目の文。", "これが最後の文。"]
    );
}

#[test]
fn test_keeps_runs_of_enders_together() {
    assert_eq!(texts("え、本当…！？嘘だろ…"), ["え、本当…！？", "嘘だろ…"]);
    assert_eq!(texts("まさか。。。そうか‼"), ["まさか。。。", "そうか‼"]);
    assert_eq!(texts("本当?!すごい⁉"), ["本当?!", "すごい⁉"]);
    assert_eq!(texts("えっ！?うそ"), ["えっ！?", "うそ"]);
}

#[test]
fn test_full_width_and_half_width_periods_are_enders() {
    assert_eq!(texts("第一文．第二文．"), ["第一文．", "第二文．"]);
    assert_eq!(texts("ｱｲｳ｡ｴｵ｡"), ["ｱｲｳ｡", "ｴｵ｡"]);
    assert_eq!(texts("何⁇そう⁈"), ["何⁇", "そう⁈"]);
}

#[test]
fn test_does_not_split_inside_brackets() {
    assert_eq!(
        texts("「うまく行くかな？」と思った。次の文。"),
        ["「うまく行くかな？」と思った。", "次の文。"]
    );
    assert_eq!(
        texts("注意（詳細は後述。）を読む。"),
        ["注意（詳細は後述。）を読む。"]
    );
    assert_eq!(
        texts("彼は『本当？「嘘だ！」』と言った。次。"),
        ["彼は『本当？「嘘だ！」』と言った。", "次。"]
    );
}

#[test]
fn test_all_bracket_pairs_protect_their_inside() {
    let pairs = [
        ("「", "」"),
        ("『", "』"),
        ("（", "）"),
        ("(", ")"),
        ("〔", "〕"),
        ("［", "］"),
        ("[", "]"),
        ("｛", "｝"),
        ("{", "}"),
        ("〈", "〉"),
        ("《", "》"),
        ("【", "】"),
        ("〖", "〗"),
        ("〘", "〙"),
        ("〚", "〛"),
        ("｟", "｠"),
        ("“", "”"),
        ("‘", "’"),
        ("«", "»"),
        ("‹", "›"),
        ("｢", "｣"),
        ("〝", "〟"),
        ("〝", "〞"),
    ];
    for (open, close) in pairs {
        let text = format!("前{open}中。中！{close}後。次。");
        assert_eq!(
            texts(&text),
            [format!("前{open}中。中！{close}後。"), "次。".to_string()],
            "{open}{close}"
        );
    }
}

#[test]
fn test_ascii_quotes_are_not_brackets() {
    assert_eq!(
        texts("He said \"Wow。\" and left。"),
        ["He said \"Wow。", "\" and left。"]
    );
}

#[test]
fn test_unmatched_open_bracket_does_not_swallow_the_rest() {
    assert_eq!(
        texts("1) 手順を読む。「閉じ忘れ。次の文。"),
        ["1) 手順を読む。", "「閉じ忘れ。", "次の文。"]
    );
}

#[test]
fn test_broken_nesting_is_matched_with_the_same_kind() {
    assert_eq!(
        texts("「前（中。」後。次の文。"),
        ["「前（中。」後。", "次の文。"]
    );
    assert_eq!(texts("（前」中。）後。次。"), ["（前」中。）後。", "次。"]);
}

#[test]
fn test_marks_embedded_enders() {
    let sentences = split(
        "彼は「行こう。」と言った。そうだ。",
        &SplitOptions::default(),
    );
    assert!(sentences[0].embedded_enders);
    assert!(!sentences[1].embedded_enders);

    for text in [
        "(https://example.com/?q=1)を開く。",
        "「Yahoo!ニュース」を見た。",
        "（注意）を読む。",
    ] {
        let sentences = split(text, &SplitOptions::default());
        assert_eq!(sentences.len(), 1, "{text}");
        assert!(!sentences[0].embedded_enders, "{text}");
    }
}

#[test]
fn test_ascii_question_mark_in_url_is_not_an_ender() {
    assert_eq!(
        texts("https://example.com/?q=1 を開く。本当?すごい。"),
        ["https://example.com/?q=1 を開く。", "本当?", "すごい。"]
    );
}

#[test]
fn test_ascii_enders_followed_by_alphanumerics_or_symbols() {
    assert_eq!(
        texts("color: red !important; を書く。"),
        ["color: red !important; を書く。"]
    );
    assert_eq!(texts("what?!x と書く。"), ["what?!x と書く。"]);
    assert_eq!(texts("本当?!次"), ["本当?!", "次"]);
    assert_eq!(texts("(本当?) 次。"), ["(本当?) 次。"]);
    assert_eq!(texts("本当?」次。"), ["本当?」", "次。"]);
    assert_eq!(texts("Really? Yes!"), ["Really?", "Yes!"]);
    assert_eq!(texts("Yes!"), ["Yes!"]);
}

#[test]
fn test_stray_closing_bracket_after_ender_stays_with_sentence() {
    assert_eq!(texts("終わりだ。」次だ。"), ["終わりだ。」", "次だ。"]);
    assert_eq!(texts("終わりだ。』）次だ。"), ["終わりだ。』）", "次だ。"]);
}

#[test]
fn test_line_breaks_are_joined_by_default() {
    assert_eq!(
        texts("一行目の途中で折り返して\n続く文。二文目"),
        ["一行目の途中で折り返して\n続く文。", "二文目"]
    );
}

#[test]
fn test_line_breaks_split_outside_brackets() {
    let options = SplitOptions {
        line_breaks: LineBreaks::Split,
        ..SplitOptions::default()
    };
    assert_eq!(
        texts_with("一行目の途中で折り返して\n続く文。二文目", &options),
        ["一行目の途中で折り返して", "続く文。", "二文目"]
    );
    assert_eq!(
        texts_with("「一行目\n二行目」と書いた\n次の行", &options),
        ["「一行目\n二行目」と書いた", "次の行"]
    );
    assert_eq!(
        texts_with("一\r\n\r\n二\r三\u{2028}四", &options),
        ["一", "二", "三", "四"]
    );
}

#[test]
fn test_sentence_end_kinds() {
    let options = SplitOptions {
        line_breaks: LineBreaks::Split,
        ..SplitOptions::default()
    };
    let ends: Vec<SentenceEnd> = split("文。改行\n最後", &options)
        .into_iter()
        .map(|s| s.end)
        .collect();
    assert_eq!(
        ends,
        [
            SentenceEnd::Ender,
            SentenceEnd::LineBreak,
            SentenceEnd::EndOfText
        ]
    );
    let ends: Vec<SentenceEnd> = split("文。", &options).into_iter().map(|s| s.end).collect();
    assert_eq!(ends, [SentenceEnd::Ender]);
}

#[test]
fn test_ranges_exclude_surrounding_whitespace() {
    let text = "  最初の文。 \u{3000}次の文！\n\t最後  ";
    let sentences = split(text, &SplitOptions::default());
    let ranges: Vec<&str> = sentences.iter().map(|s| &text[s.range.clone()]).collect();
    assert_eq!(ranges, ["最初の文。", "次の文！", "最後"]);
    assert_eq!(sentences[0].range, 2..2 + "最初の文。".len());
}

#[test]
fn test_empty_and_whitespace_only_text_yields_nothing() {
    assert!(texts("").is_empty());
    assert!(texts("   ").is_empty());
    assert!(texts(" \n\u{3000} ").is_empty());
}

#[test]
fn test_builtin_exception_words_keep_sentences_whole() {
    assert_eq!(
        texts("Yahoo!ニュースとHey!Say!JUMPを見た。"),
        ["Yahoo!ニュースとHey!Say!JUMPを見た。"]
    );
    assert_eq!(
        texts("ご注文はうさぎですか?を観た。"),
        ["ご注文はうさぎですか?を観た。"]
    );
    assert_eq!(texts("けいおん!の話。"), ["けいおん!の話。"]);
    assert_eq!(
        texts("やはり俺の青春ラブコメはまちがっている。は面白い。"),
        ["やはり俺の青春ラブコメはまちがっている。は面白い。"]
    );
}

#[test]
fn test_ender_at_end_of_exception_word_splits_unless_particle_follows() {
    let options = SplitOptions {
        extra_exceptions: &["テスト語！"],
        use_builtin_exceptions: false,
        ..SplitOptions::default()
    };
    for particle in ["の", "は", "が", "を", "に", "と", "で", "も", "や", "へ"] {
        let text = format!("テスト語！{particle}続き。");
        assert_eq!(texts_with(&text, &options), [text.as_str()], "{particle}");
    }
    assert_eq!(
        texts_with("テスト語！次の文。", &options),
        ["テスト語！", "次の文。"]
    );
    assert_eq!(texts_with("テスト語！", &options), ["テスト語！"]);
    assert_eq!(
        texts_with("テスト語！！の続き。", &options),
        ["テスト語！！", "の続き。"]
    );
}

#[test]
fn test_longest_exception_wins() {
    let options = SplitOptions {
        extra_exceptions: &["Yahoo!", "Yahoo!ニュース"],
        use_builtin_exceptions: false,
        ..SplitOptions::default()
    };
    assert_eq!(
        texts_with("Yahoo!ニュースを見た。", &options),
        ["Yahoo!ニュースを見た。"]
    );
    assert_eq!(
        texts_with("Yahoo!の株価。Yahoo!次。", &options),
        ["Yahoo!の株価。", "Yahoo!", "次。"]
    );
}

#[test]
fn test_builtin_exceptions_can_be_disabled() {
    let options = SplitOptions {
        use_builtin_exceptions: false,
        ..SplitOptions::default()
    };
    assert_eq!(
        texts_with("Yahoo!ニュースを見た。", &options),
        ["Yahoo!", "ニュースを見た。"]
    );
    assert_eq!(
        texts_with("モーニング娘。のライブ。", &options),
        ["モーニング娘。", "のライブ。"]
    );
    assert_eq!(
        texts_with("Hey!Say!JUMPのライブ。", &options),
        ["Hey!Say!JUMPのライブ。"]
    );
}

#[test]
fn test_extra_exceptions_are_added_to_builtin_ones() {
    let options = SplitOptions {
        extra_exceptions: &["新語。テスト", "記号なし"],
        ..SplitOptions::default()
    };
    assert_eq!(
        texts_with("新語。テストとYahoo!ニュース。次。", &options),
        ["新語。テストとYahoo!ニュース。", "次。"]
    );
    let splitter = Splitter::new(&options);
    assert!(format!("{splitter:?}").contains("extra_exceptions: 1"));
}

#[test]
fn test_overlapping_exceptions_protect_their_union() {
    let options = SplitOptions {
        extra_exceptions: &["AB。C", "C。D"],
        use_builtin_exceptions: false,
        ..SplitOptions::default()
    };
    assert_eq!(texts_with("AB。C。D。E。", &options), ["AB。C。D。", "E。"]);
}

#[test]
fn test_exception_inside_brackets_and_across_line_breaks() {
    assert_eq!(
        texts("「モーニング娘。」が好きだ。次。"),
        ["「モーニング娘。」が好きだ。", "次。"]
    );
    let options = SplitOptions {
        line_breaks: LineBreaks::Split,
        ..SplitOptions::default()
    };
    assert_eq!(
        texts_with("Yahoo!ニュース\nモーニング娘。のライブ", &options),
        ["Yahoo!ニュース", "モーニング娘。のライブ"]
    );
}

#[test]
fn test_chunk_ends_cover_the_input_without_gaps() {
    let text = " 最初の文。「括弧？」の中\n次の行！？ Yahoo!ニュース。末尾";
    let ends = Splitter::default().chunk_ends(text);
    assert_eq!(ends.last(), Some(&text.len()));
    assert!(ends.windows(2).all(|w| w[0] < w[1]));
    assert_eq!(chunks(text).concat(), text);
    assert_eq!(
        chunks(text),
        [
            " 最初の文。",
            "「括弧？",
            "」の中\n",
            "次の行！？",
            " Yahoo!ニュース。",
            "末尾"
        ]
    );
}

#[test]
fn test_chunk_ends_keep_exception_words_whole() {
    assert_eq!(chunks("Hey!Say!JUMPのライブ。"), ["Hey!Say!JUMPのライブ。"]);
    assert_eq!(
        chunks("ご注文はうさぎですか?を観た。"),
        ["ご注文はうさぎですか?を観た。"]
    );
    assert_eq!(
        chunks("好きなのはモーニング娘。次の話題。"),
        ["好きなのはモーニング娘。", "次の話題。"]
    );
}

#[test]
fn test_chunk_ends_split_on_every_line_break() {
    assert_eq!(
        chunks("「一行目\n二行目」\r\n\n三行目"),
        ["「一行目\n", "二行目」\r\n", "\n", "三行目"]
    );
    assert_eq!(chunks("文。\n"), ["文。", "\n"]);
    assert!(Splitter::default().chunk_ends("").is_empty());
}

#[test]
fn test_short_exception_words_do_not_join_ordinary_sentences() {
    let cases: [(&str, &[&str]); 12] = [
        ("高すぎ。でも買った。", &["高すぎ。", "でも買った。"]),
        (
            "来てくださる。もし都合が悪ければ連絡する。",
            &["来てくださる。", "もし都合が悪ければ連絡する。"],
        ),
        ("すごいな！でも疲れた。", &["すごいな！", "でも疲れた。"]),
        (
            "今日は寒いね。では始めよう。",
            &["今日は寒いね。", "では始めよう。"],
        ),
        (
            "君が好きだ。とはいえ言えない。",
            &["君が好きだ。", "とはいえ言えない。"],
        ),
        (
            "意見を述べる。では次に進む。",
            &["意見を述べる。", "では次に進む。"],
        ),
        (
            "もう一度食べる。もちろん残さない。",
            &["もう一度食べる。", "もちろん残さない。"],
        ),
        (
            "結果を調べる。とにかく急ぐ。",
            &["結果を調べる。", "とにかく急ぐ。"],
        ),
        ("行くわ！はい、どうぞ。", &["行くわ！", "はい、どうぞ。"]),
        (
            "ずっと。やはり変わらない。",
            &["ずっと。", "やはり変わらない。"],
        ),
        (
            "好きなのはモーニング娘。もう一度言う。",
            &["好きなのはモーニング娘。", "もう一度言う。"],
        ),
        ("高すぎ。しかし買った。", &["高すぎ。", "しかし買った。"]),
    ];
    for (input, expected) in cases {
        assert_eq!(texts(input), expected, "{input}");
    }
}

#[test]
fn test_exception_words_still_keep_sentences_whole() {
    for text in [
        "モーニング娘。のライブに行った。",
        "Yahoo!ニュースを見た。",
        "Yahoo!で検索した。",
        "Hey! Say! JUMPのライブ。",
        "「モーニング娘。」が好き。",
    ] {
        assert_eq!(texts(text), [text], "{text}");
    }
}

#[test]
fn test_decimal_points_between_digits_are_not_enders() {
    assert_eq!(
        texts("円周率は３．１４です。次の文。"),
        ["円周率は３．１４です。", "次の文。"]
    );
    assert_eq!(
        texts("第３．２節を読む。次の文。"),
        ["第３．２節を読む。", "次の文。"]
    );
    assert_eq!(
        texts("約7．8mmと3｡5kg。次。"),
        ["約7．8mmと3｡5kg。", "次。"]
    );
    assert_eq!(texts("…を述べる．３章では…"), ["…を述べる．", "３章では…"]);
    assert_eq!(texts("第一文．第二文．"), ["第一文．", "第二文．"]);
    assert_eq!(chunks("約３．１４です。"), ["約３．１４です。"]);
}

#[test]
fn test_exception_matching_folds_width() {
    assert_eq!(
        texts("Yahoo！ニュースを見た。次の文。"),
        ["Yahoo！ニュースを見た。", "次の文。"]
    );
    assert_eq!(
        texts("Ｙａｈｏｏ！ニュースを見た。"),
        ["Ｙａｈｏｏ！ニュースを見た。"]
    );
    assert_eq!(
        texts("Ｈｅｙ！Ｓａｙ！ＪＵＭＰのライブ。"),
        ["Ｈｅｙ！Ｓａｙ！ＪＵＭＰのライブ。"]
    );
    let options = SplitOptions {
        extra_exceptions: &["ＡＢＣ！ＤＥＦ"],
        use_builtin_exceptions: false,
        ..SplitOptions::default()
    };
    assert_eq!(texts_with("ABC!DEFを見た。", &options), ["ABC!DEFを見た。"]);
}

#[test]
fn test_more_words_continue_after_exception_words() {
    for text in [
        "モーニング娘。からの発表だ。",
        "モーニング娘。より先に出た。",
        "モーニング娘。って知ってる？",
        "モーニング娘。など多くのグループ。",
        "モーニング娘。だけが残った。",
        "Yahoo!より速い。",
    ] {
        assert_eq!(texts(text), [text], "{text}");
    }
}

#[test]
fn test_public_char_predicates_agree_with_the_splitter() {
    for code in 0..=0x10FFFF {
        let Some(c) = char::from_u32(code) else {
            continue;
        };
        assert_eq!(
            is_sentence_ender(c),
            matches!(classify(c), CharKind::Ender | CharKind::AsciiEnder),
            "{c:?}"
        );
        match bracket(c) {
            Some((kind, true)) => {
                let close = closing_bracket(c).expect("開き括弧には閉じ括弧がある");
                assert_eq!(bracket(close), Some((kind, false)), "{c:?}");
                assert!(!is_closing_bracket(c));
            }
            Some((_, false)) => {
                assert!(is_closing_bracket(c), "{c:?}");
                assert_eq!(closing_bracket(c), None);
            }
            None => {
                assert!(
                    !is_closing_bracket(c) && closing_bracket(c).is_none(),
                    "{c:?}"
                );
            }
        }
    }
    assert_eq!(closing_bracket('〝'), Some('〟'));
    assert!(is_closing_bracket('〞'));
    assert_eq!(closing_bracket('"'), None);
    assert!(ascii_run_is_ender(None));
    assert!(ascii_run_is_ender(Some('次')));
    assert!(!ascii_run_is_ender(Some('i')));
}

#[test]
fn test_split_with_breaks() {
    let splitter = Splitter::default();
    let with = |text: &str, breaks: &[usize]| -> Vec<String> {
        splitter
            .split_with_breaks(text, breaks)
            .into_iter()
            .map(|s| text[s.range].to_string())
            .collect()
    };
    let text = "一行目の途中で折り返して続く文。二文目";
    let at = "一行目の途中で折り返して".len();
    assert_eq!(
        with(text, &[at]),
        ["一行目の途中で折り返して", "続く文。", "二文目"]
    );
    let text = "「一行目二行目」と書いた次の行";
    assert_eq!(
        with(text, &["「一行目".len(), "「一行目二行目」と書いた".len()]),
        ["「一行目二行目」と書いた", "次の行"]
    );
    assert_eq!(with("前「中」後", &["前".len()]), ["前", "「中」後"]);
    let text = "一二三";
    assert_eq!(with(text, &[6, 3, 3, 0, text.len()]), ["一", "二", "三"]);
    let ends: Vec<SentenceEnd> = splitter
        .split_with_breaks("一二", &[3])
        .into_iter()
        .map(|s| s.end)
        .collect();
    assert_eq!(ends, [SentenceEnd::LineBreak, SentenceEnd::EndOfText]);
}

#[test]
fn test_split_with_breaks_matches_line_break_characters() {
    let options = SplitOptions {
        line_breaks: LineBreaks::Split,
        ..SplitOptions::default()
    };
    let splitter = Splitter::default();
    for text in [
        "一行目の途中で\n続く文。二文目\n「括弧の\n内側」の後\n末尾",
        "\n先頭の改行\n\n空行。Yahoo!\nニュース",
        "（開き\n括弧）と\n（閉じ忘れ\n次",
    ] {
        let expected: Vec<String> = texts_with(text, &options)
            .into_iter()
            .map(|s| s.replace('\n', ""))
            .collect();
        let joined: String = text.split('\n').collect();
        let mut breaks = Vec::new();
        let mut pos = 0;
        for line in text.split('\n') {
            pos += line.len();
            breaks.push(pos);
        }
        breaks.pop();
        let got: Vec<&str> = splitter
            .split_with_breaks(&joined, &breaks)
            .into_iter()
            .map(|s| &joined[s.range])
            .collect();
        assert_eq!(got, expected, "{text:?}");
    }
}

#[test]
fn test_many_unmatched_brackets_are_handled_in_linear_time() {
    let text = format!("{}{}。次の文。", "(".repeat(50_000), "]".repeat(50_000));
    let sentences = split(&text, &SplitOptions::default());
    assert_eq!(sentences.len(), 2);
    assert!(!sentences[0].embedded_enders);

    let text = format!("{}。{}次の文。", "(".repeat(50_000), ")".repeat(50_000));
    assert_eq!(split(&text, &SplitOptions::default()).len(), 1);
}

#[test]
fn test_long_runs_are_handled_in_linear_time() {
    let text = format!("{}x{}", "!".repeat(100_000), "?".repeat(100_000));
    assert_eq!(texts(&text), [text.as_str()]);
    let text = "。".repeat(100_000);
    assert_eq!(texts(&text).len(), 1);
    let text = "モーニング娘。の".repeat(20_000);
    assert_eq!(texts(&text).len(), 1);
}

#[test]
fn test_split_options_default() {
    let options = SplitOptions::default();
    assert_eq!(options.line_breaks, LineBreaks::Join);
    assert!(options.extra_exceptions.is_empty());
    assert!(options.use_builtin_exceptions);
}

#[test]
fn test_splitter_matches_split_function() {
    let text = "「うまく行くかな？」と思った。Yahoo!ニュースを見た。本当?すごい。";
    let splitter = Splitter::default();
    assert_eq!(splitter.split(text), split(text, &SplitOptions::default()));
    assert_eq!(splitter.split(text), splitter.split(text));
}

#[test]
fn test_splitter_is_send_and_sync() {
    fn assert_send_sync<T: Send + Sync>() {}
    assert_send_sync::<Splitter>();
}