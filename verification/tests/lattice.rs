use hasami::lattice::{apply_contextual_readings, Token};

fn reading_token(surface: &str, pos: &str, reading: &str) -> Token {
    Token {
        surface: surface.into(),
        start: 0,
        end: surface.len(),
        pos: pos.into(),
        conj_type: "".into(),
        conj_form: "".into(),
        base_form: surface.into(),
        reading: reading.into(),
        pronunciation: reading.into(),
        word_cost: 0,
        is_known: true,
    }
}

#[test]
fn test_hoka_reading_depends_on_selected_pos() {
    let mut tokens = vec![
        reading_token("他", "名詞,一般,*,*", "タ"),
        reading_token("他", "接頭詞,名詞接続,*,*", "タ"),
        reading_token("他", "名詞,非自立,副詞可能,*", "ホカ"),
    ];

    apply_contextual_readings(&mut tokens);

    assert_eq!(&*tokens[0].reading, "ホカ");
    assert_eq!(&*tokens[0].pronunciation, "ホカ");
    assert_eq!(&*tokens[1].reading, "タ");
    assert_eq!(&*tokens[1].pronunciation, "タ");
    assert_eq!(&*tokens[2].reading, "ホカ");
}

#[test]
fn test_kazu_reading_depends_on_following_token() {
    for next in [
        reading_token("が", "助詞,格助詞,一般,*", "ガ"),
        reading_token("を", "助詞,格助詞,一般,*", "ヲ"),
    ] {
        let surface = next.surface.to_string();
        let mut tokens = vec![reading_token("数", "名詞,一般,*,*", "スウ"), next];
        apply_contextual_readings(&mut tokens);
        assert_eq!(&*tokens[0].reading, "カズ", "数{surface}");
        assert_eq!(&*tokens[0].pronunciation, "カズ", "数{surface}");
    }

    for next in [
        reading_token("十", "名詞,数,*,*", "ジュウ"),
        reading_token("分", "名詞,接尾,助数詞,*", "フン"),
    ] {
        let surface = next.surface.to_string();
        let mut tokens = vec![reading_token("数", "名詞,一般,*,*", "スウ"), next];
        apply_contextual_readings(&mut tokens);
        assert_eq!(&*tokens[0].reading, "スウ", "数{surface}");
    }

    let mut tokens = vec![reading_token("数", "名詞,一般,*,*", "スウ")];
    apply_contextual_readings(&mut tokens);
    assert_eq!(&*tokens[0].reading, "カズ");

    let mut tokens = vec![
        reading_token("数", "名詞,数,*,*", "スウ"),
        reading_token("分", "名詞,接尾,助数詞,*", "フン"),
    ];
    apply_contextual_readings(&mut tokens);
    assert_eq!(&*tokens[0].reading, "スウ");
}

#[test]
fn test_decimal_counter_is_not_geminated() {
    let mut tokens = vec![
        reading_token("四", "名詞,数,*,*", "ヨン"),
        reading_token("点", "名詞,一般,*,*", "テン"),
        reading_token("一節", "名詞,一般,*,*", "イッセツ"),
    ];
    apply_contextual_readings(&mut tokens);
    assert_eq!(&*tokens[2].reading, "イチセツ");
    assert_eq!(&*tokens[2].pronunciation, "イチセツ");

    let mut tokens = vec![
        reading_token("詩", "名詞,一般,*,*", "シ"),
        reading_token("の", "助詞,連体化,*,*", "ノ"),
        reading_token("一節", "名詞,一般,*,*", "イッセツ"),
    ];
    apply_contextual_readings(&mut tokens);
    assert_eq!(&*tokens[2].reading, "イッセツ");

    let mut tokens = vec![
        reading_token("要", "名詞,一般,*,*", "ヨウ"),
        reading_token("点", "名詞,一般,*,*", "テン"),
        reading_token("一節", "名詞,一般,*,*", "イッセツ"),
    ];
    apply_contextual_readings(&mut tokens);
    assert_eq!(&*tokens[2].reading, "イッセツ");
}


fn unknown_token(surface: &str) -> Token {
    Token {
        is_known: false,
        reading: "".into(),
        pronunciation: "".into(),
        ..reading_token(surface, "名詞,一般,*,*", "")
    }
}

#[test]
fn unit_after_a_number_and_spelled_out_letters() {
    let mut tokens = vec![
        reading_token("3", "名詞,数,*,*", "サン"),
        unknown_token("kg"),
        unknown_token("AI"),
        reading_token("1,000", "名詞,一般,*,*", ""),
        unknown_token("t"),
        reading_token(",", "記号,読点,*,*", ""),
        unknown_token("A"),
    ];
    apply_contextual_readings(&mut tokens);
    assert_eq!(&*tokens[1].reading, "キログラム");
    assert_eq!(&*tokens[2].reading, "エーアイ");
    assert_eq!(&*tokens[2].pronunciation, "エーアイ");
    assert_eq!(&*tokens[4].reading, "トン");
    assert_eq!(&*tokens[6].reading, "エー");
}

#[test]
fn kana_surfaces_fill_empty_readings_and_iteration_mark_repeats() {
    let mut tokens = vec![
        unknown_token("ぴかぴか"),
        reading_token("前", "名詞,一般,*,*", "マエ"),
        Token { pronunciation: "".into(), reading: "".into(), ..reading_token("々", "記号,一般,*,*", "") },
        unknown_token("ハロー"),
        unknown_token("漢字"),
    ];
    apply_contextual_readings(&mut tokens);
    assert_eq!(&*tokens[0].reading, "ピカピカ");
    assert_eq!(&*tokens[2].reading, "マエ");
    assert_eq!(&*tokens[2].pronunciation, "マエ");
    assert_eq!(&*tokens[3].reading, "ハロー");
    assert_eq!(&*tokens[4].reading, "");
}

#[test]
fn trusted_dictionary_readings_of_latin_words_stay() {
    let mut tokens = vec![reading_token("NASA", "名詞,固有名詞,組織,*", "ナサ")];
    apply_contextual_readings(&mut tokens);
    assert_eq!(&*tokens[0].reading, "ナサ");
    let mut tokens = vec![reading_token("PC", "名詞,一般,*,*", "パソコン")];
    apply_contextual_readings(&mut tokens);
    assert_eq!(&*tokens[0].reading, "ピーシー");
}
