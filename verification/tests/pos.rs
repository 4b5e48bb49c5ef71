use hasami::lattice::Token;
use hasami::pos::{ipadic_coarse_pos, unidic_coarse_pos, CoarsePos, PosScheme};

fn token(surface: &str, pos: &str, base_form: &str) -> Token {
    Token {
        surface: surface.into(),
        start: 0,
        end: surface.len(),
        pos: pos.into(),
        conj_type: "".into(),
        conj_form: "".into(),
        base_form: base_form.into(),
        reading: "".into(),
        pronunciation: "".into(),
        word_cost: 0,
        is_known: true,
    }
}

fn unknown(surface: &str, pos: &str) -> Token {
    Token {
        is_known: false,
        ..token(surface, pos, surface)
    }
}

fn spoken(reading: &str, pronunciation: &str) -> Token {
    Token {
        reading: reading.into(),
        pronunciation: pronunciation.into(),
        ..token("語", "名詞,一般,*,*", "語")
    }
}

const IPADIC_INVENTORY: &[(&str, CoarsePos)] = &[
    ("その他,間投,*,*", CoarsePos::Other),
    ("フィラー,*,*,*", CoarsePos::Interjection),
    ("副詞,一般,*,*", CoarsePos::Adverb),
    ("副詞,助詞類接続,*,*", CoarsePos::Adverb),
    ("助動詞,*,*,*", CoarsePos::AuxVerb),
    ("助詞,並立助詞,*,*", CoarsePos::OtherParticle),
    ("助詞,係助詞,*,*", CoarsePos::BindingParticle),
    ("助詞,副助詞,*,*", CoarsePos::OtherParticle),
    (
        "助詞,副助詞／並立助詞／終助詞,*,*",
        CoarsePos::OtherParticle,
    ),
    ("助詞,副詞化,*,*", CoarsePos::CaseParticle),
    ("助詞,接続助詞,*,*", CoarsePos::ConjunctiveParticle),
    ("助詞,格助詞,一般,*", CoarsePos::CaseParticle),
    ("助詞,格助詞,引用,*", CoarsePos::CaseParticle),
    ("助詞,格助詞,連語,*", CoarsePos::CaseParticle),
    ("助詞,特殊,*,*", CoarsePos::OtherParticle),
    ("助詞,終助詞,*,*", CoarsePos::FinalParticle),
    ("助詞,連体化,*,*", CoarsePos::CaseParticle),
    ("動詞,接尾,*,*", CoarsePos::Verb),
    ("動詞,自立,*,*", CoarsePos::Verb),
    ("動詞,非自立,*,*", CoarsePos::Verb),
    ("名詞,サ変接続,*,*", CoarsePos::Noun),
    ("名詞,ナイ形容詞語幹,*,*", CoarsePos::Noun),
    ("名詞,一般,*,*", CoarsePos::Noun),
    ("名詞,代名詞,一般,*", CoarsePos::Pronoun),
    ("名詞,代名詞,縮約,*", CoarsePos::Pronoun),
    ("名詞,副詞可能,*,*", CoarsePos::Noun),
    ("名詞,動詞非自立的,*,*", CoarsePos::Noun),
    ("名詞,固有名詞,一般,*", CoarsePos::ProperNoun),
    ("名詞,固有名詞,人名,一般", CoarsePos::ProperNoun),
    ("名詞,固有名詞,人名,名", CoarsePos::ProperNoun),
    ("名詞,固有名詞,人名,姓", CoarsePos::ProperNoun),
    ("名詞,固有名詞,地域,一般", CoarsePos::ProperNoun),
    ("名詞,固有名詞,地域,国", CoarsePos::ProperNoun),
    ("名詞,固有名詞,組織,*", CoarsePos::ProperNoun),
    ("名詞,引用文字列,*,*", CoarsePos::Noun),
    ("名詞,形容動詞語幹,*,*", CoarsePos::Noun),
    ("名詞,接尾,サ変接続,*", CoarsePos::NounSuffix),
    ("名詞,接尾,一般,*", CoarsePos::NounSuffix),
    ("名詞,接尾,人名,*", CoarsePos::NounSuffix),
    ("名詞,接尾,副詞可能,*", CoarsePos::NounSuffix),
    ("名詞,接尾,助動詞語幹,*", CoarsePos::AuxVerb),
    ("名詞,接尾,助数詞,*", CoarsePos::NounSuffix),
    ("名詞,接尾,地域,*", CoarsePos::NounSuffix),
    ("名詞,接尾,形容動詞語幹,*", CoarsePos::NounSuffix),
    ("名詞,接尾,特殊,*", CoarsePos::NounSuffix),
    ("名詞,接続詞的,*,*", CoarsePos::Noun),
    ("名詞,数,*,*", CoarsePos::Numeral),
    ("名詞,特殊,助動詞語幹,*", CoarsePos::AuxVerb),
    ("名詞,非自立,一般,*", CoarsePos::FormalNoun),
    ("名詞,非自立,副詞可能,*", CoarsePos::FormalNoun),
    ("名詞,非自立,助動詞語幹,*", CoarsePos::AuxVerb),
    ("名詞,非自立,形容動詞語幹,*", CoarsePos::FormalNoun),
    ("形容詞,接尾,*,*", CoarsePos::Adjective),
    ("形容詞,自立,*,*", CoarsePos::Adjective),
    ("形容詞,非自立,*,*", CoarsePos::Adjective),
    ("感動詞,*,*,*", CoarsePos::Interjection),
    ("接続詞,*,*,*", CoarsePos::Conjunction),
    ("接頭詞,動詞接続,*,*", CoarsePos::Prefix),
    ("接頭詞,名詞接続,*,*", CoarsePos::Prefix),
    ("接頭詞,形容詞接続,*,*", CoarsePos::Prefix),
    ("接頭詞,数接続,*,*", CoarsePos::Prefix),
    ("記号,アルファベット,*,*", CoarsePos::Symbol),
    ("記号,一般,*,*", CoarsePos::Symbol),
    ("記号,句点,*,*", CoarsePos::Period),
    ("記号,括弧閉,*,*", CoarsePos::CloseBracket),
    ("記号,括弧開,*,*", CoarsePos::OpenBracket),
    ("記号,空白,*,*", CoarsePos::Symbol),
    ("記号,読点,*,*", CoarsePos::Comma),
    ("連体詞,*,*,*", CoarsePos::Adnominal),
];

const UNIDIC_INVENTORY: &[(&str, CoarsePos)] = &[
    ("代名詞,*,*,*", CoarsePos::Pronoun),
    ("副詞,*,*,*", CoarsePos::Adverb),
    ("助動詞,*,*,*", CoarsePos::AuxVerb),
    ("助詞,係助詞,*,*", CoarsePos::BindingParticle),
    ("助詞,副助詞,*,*", CoarsePos::OtherParticle),
    ("助詞,接続助詞,*,*", CoarsePos::ConjunctiveParticle),
    ("助詞,格助詞,*,*", CoarsePos::CaseParticle),
    ("助詞,準体助詞,*,*", CoarsePos::FormalNoun),
    ("助詞,終助詞,*,*", CoarsePos::FinalParticle),
    ("動詞,一般,*,*", CoarsePos::Verb),
    ("動詞,非自立可能,*,*", CoarsePos::Verb),
    ("名詞,助動詞語幹,*,*", CoarsePos::AuxVerb),
    ("名詞,固有名詞,一般,*", CoarsePos::ProperNoun),
    ("名詞,固有名詞,人名,一般", CoarsePos::ProperNoun),
    ("名詞,固有名詞,人名,名", CoarsePos::ProperNoun),
    ("名詞,固有名詞,人名,姓", CoarsePos::ProperNoun),
    ("名詞,固有名詞,地名,一般", CoarsePos::ProperNoun),
    ("名詞,固有名詞,地名,国", CoarsePos::ProperNoun),
    ("名詞,数詞,*,*", CoarsePos::Numeral),
    ("名詞,普通名詞,サ変可能,*", CoarsePos::Noun),
    ("名詞,普通名詞,サ変形状詞可能,*", CoarsePos::Noun),
    ("名詞,普通名詞,一般,*", CoarsePos::Noun),
    ("名詞,普通名詞,副詞可能,*", CoarsePos::Noun),
    ("名詞,普通名詞,助数詞可能,*", CoarsePos::Noun),
    ("名詞,普通名詞,形状詞可能,*", CoarsePos::Noun),
    ("形容詞,一般,*,*", CoarsePos::Adjective),
    ("形容詞,非自立可能,*,*", CoarsePos::Adjective),
    ("形状詞,タリ,*,*", CoarsePos::Noun),
    ("形状詞,一般,*,*", CoarsePos::Noun),
    ("形状詞,助動詞語幹,*,*", CoarsePos::AuxVerb),
    ("感動詞,フィラー,*,*", CoarsePos::Interjection),
    ("感動詞,一般,*,*", CoarsePos::Interjection),
    ("接尾辞,動詞的,*,*", CoarsePos::Verb),
    ("接尾辞,名詞的,サ変可能,*", CoarsePos::NounSuffix),
    ("接尾辞,名詞的,一般,*", CoarsePos::NounSuffix),
    ("接尾辞,名詞的,副詞可能,*", CoarsePos::NounSuffix),
    ("接尾辞,名詞的,助数詞,*", CoarsePos::NounSuffix),
    ("接尾辞,形容詞的,*,*", CoarsePos::Adjective),
    ("接尾辞,形状詞的,*,*", CoarsePos::NounSuffix),
    ("接続詞,*,*,*", CoarsePos::Conjunction),
    ("接頭辞,*,*,*", CoarsePos::Prefix),
    ("空白,*,*,*", CoarsePos::Symbol),
    ("補助記号,一般,*,*", CoarsePos::Symbol),
    ("補助記号,句点,*,*", CoarsePos::Period),
    ("補助記号,括弧閉,*,*", CoarsePos::CloseBracket),
    ("補助記号,括弧開,*,*", CoarsePos::OpenBracket),
    ("補助記号,読点,*,*", CoarsePos::Comma),
    ("補助記号,ＡＡ,一般,*", CoarsePos::Symbol),
    ("補助記号,ＡＡ,顔文字,*", CoarsePos::Symbol),
    ("記号,一般,*,*", CoarsePos::Symbol),
    ("記号,文字,*,*", CoarsePos::Symbol),
    ("連体詞,*,*,*", CoarsePos::Adnominal),
];

fn split_pos(pos: &str) -> (&str, &str, &str) {
    let mut fields = pos.split(',');
    (
        fields.next().unwrap_or(""),
        fields.next().unwrap_or(""),
        fields.next().unwrap_or(""),
    )
}

#[test]
fn test_every_ipadic_pos_is_mapped() {
    for &(pos, expected) in IPADIC_INVENTORY {
        let (pos1, pos2, _) = split_pos(pos);
        assert_eq!(PosScheme::detect(pos1, pos2), PosScheme::Ipadic, "{pos}");
        assert_eq!(token("語", pos, "語").coarse_pos(), expected, "{pos}");
    }
}

#[test]
fn test_every_unidic_pos_is_mapped() {
    for &(pos, expected) in UNIDIC_INVENTORY {
        assert_eq!(token("語", pos, "語").coarse_pos(), expected, "{pos}");
    }
}

#[test]
fn test_pos_shared_by_both_schemes_maps_to_the_same_value() {
    let mut shared = 0;
    for &(pos, _) in UNIDIC_INVENTORY {
        let (pos1, pos2, pos3) = split_pos(pos);
        if PosScheme::detect(pos1, pos2) == PosScheme::Ipadic {
            shared += 1;
            assert_eq!(
                ipadic_coarse_pos(pos1, pos2, pos3, "語"),
                unidic_coarse_pos(pos1, pos2, pos3, "語"),
                "{pos}"
            );
        }
    }
    assert!(shared > 0);
}

#[test]
fn test_no_is_a_case_particle_in_both_schemes() {
    for pos in ["助詞,連体化,*,*", "助詞,格助詞,一般,*", "助詞,格助詞,*,*"] {
        assert_eq!(
            token("の", pos, "の").coarse_pos(),
            CoarsePos::CaseParticle,
            "{pos}"
        );
    }
    for pos in ["名詞,非自立,一般,*", "助詞,準体助詞,*,*"] {
        assert_eq!(
            token("の", pos, "の").coarse_pos(),
            CoarsePos::FormalNoun,
            "{pos}"
        );
    }
    assert_eq!(
        token("の", "助詞,終助詞,*,*", "の").coarse_pos(),
        CoarsePos::FinalParticle
    );
}

#[test]
fn test_passive_and_causative_suffixes_are_aux_verbs() {
    for base_form in ["れる", "られる", "せる", "させる", "しめる", "す", "さす"]
    {
        assert_eq!(
            token("れ", "動詞,接尾,*,*", base_form).coarse_pos(),
            CoarsePos::AuxVerb,
            "{base_form}"
        );
    }
    assert_eq!(
        token("さ", "動詞,自立,*,*", "する").coarse_pos(),
        CoarsePos::Verb
    );
    assert_eq!(
        token("がる", "動詞,接尾,*,*", "がる").coarse_pos(),
        CoarsePos::Verb
    );
    assert_eq!(
        token("れる", "助動詞,*,*,*", "れる").coarse_pos(),
        CoarsePos::AuxVerb
    );
}

#[test]
fn test_auxiliary_verb_stems_are_aux_verbs_in_both_schemes() {
    for (surface, pos) in [
        ("そう", "名詞,特殊,助動詞語幹,*"),
        ("そう", "名詞,接尾,助動詞語幹,*"),
        ("よう", "名詞,非自立,助動詞語幹,*"),
        ("みたい", "名詞,非自立,形容動詞語幹,*"),
        ("そう", "名詞,助動詞語幹,*,*"),
        ("そう", "形状詞,助動詞語幹,*,*"),
        ("よう", "形状詞,助動詞語幹,*,*"),
        ("みたい", "形状詞,助動詞語幹,*,*"),
    ] {
        assert_eq!(
            token(surface, pos, surface).coarse_pos(),
            CoarsePos::AuxVerb,
            "{surface} {pos}"
        );
    }
    for pos in ["名詞,非自立,形容動詞語幹,*", "名詞,普通名詞,形状詞可能,*"]
    {
        assert_eq!(
            token("ふう", pos, "ふう").coarse_pos(),
            CoarsePos::FormalNoun,
            "{pos}"
        );
    }
}

#[test]
fn test_unidic_formal_nouns_are_found_by_surface() {
    for (surface, pos) in [
        ("こと", "名詞,普通名詞,一般,*"),
        ("もの", "名詞,普通名詞,サ変可能,*"),
        ("わけ", "名詞,普通名詞,一般,*"),
        ("ため", "名詞,普通名詞,副詞可能,*"),
        ("とおり", "名詞,普通名詞,助数詞可能,*"),
    ] {
        assert_eq!(
            token(surface, pos, surface).coarse_pos(),
            CoarsePos::FormalNoun,
            "{surface}"
        );
    }
    assert_eq!(
        token("事", "名詞,普通名詞,一般,*", "事").coarse_pos(),
        CoarsePos::Noun
    );
    assert_eq!(
        token("部屋", "名詞,普通名詞,一般,*", "部屋").coarse_pos(),
        CoarsePos::Noun
    );
    assert_eq!(
        token("こと", "名詞,一般,*,*", "こと").coarse_pos(),
        CoarsePos::Noun
    );
}

#[test]
fn test_symbol_subcategories_follow_the_dictionary() {
    for (surface, pos, expected) in [
        ("。", "記号,句点,*,*", CoarsePos::Period),
        ("、", "記号,読点,*,*", CoarsePos::Comma),
        ("「", "記号,括弧開,*,*", CoarsePos::OpenBracket),
        ("」", "記号,括弧閉,*,*", CoarsePos::CloseBracket),
        ("。", "補助記号,句点,*,*", CoarsePos::Period),
        ("、", "補助記号,読点,*,*", CoarsePos::Comma),
        ("「", "補助記号,括弧開,*,*", CoarsePos::OpenBracket),
        ("」", "補助記号,括弧閉,*,*", CoarsePos::CloseBracket),
        (".", "記号,句点,*,*", CoarsePos::Period),
        ("・", "記号,一般,*,*", CoarsePos::Symbol),
        ("…", "補助記号,一般,*,*", CoarsePos::Symbol),
        ("　", "記号,空白,*,*", CoarsePos::Symbol),
        ("　", "空白,*,*,*", CoarsePos::Symbol),
    ] {
        assert_eq!(
            token(surface, pos, surface).coarse_pos(),
            expected,
            "{surface} {pos}"
        );
    }
}

#[test]
fn test_generic_symbols_are_classified_by_surface() {
    for (surface, expected) in [
        ("！", CoarsePos::Period),
        ("？", CoarsePos::Period),
        ("!?", CoarsePos::Period),
        ("‼", CoarsePos::Period),
        ("､", CoarsePos::Comma),
        (",", CoarsePos::Comma),
        ("(", CoarsePos::OpenBracket),
        ("｢", CoarsePos::OpenBracket),
        ("〝", CoarsePos::OpenBracket),
        (")", CoarsePos::CloseBracket),
        ("｣", CoarsePos::CloseBracket),
        ("〞", CoarsePos::CloseBracket),
        ("()", CoarsePos::Symbol),
        (".", CoarsePos::Symbol),
        ("…", CoarsePos::Symbol),
    ] {
        for pos in ["記号,一般,*,*", "補助記号,一般,*,*", "記号,文字,*,*"] {
            assert_eq!(
                token(surface, pos, surface).coarse_pos(),
                expected,
                "{surface} {pos}"
            );
        }
    }
}

#[test]
fn test_unknown_symbols_are_symbols_whatever_the_pos() {
    for (surface, expected) in [
        ("＠", CoarsePos::Symbol),
        ("※", CoarsePos::Symbol),
        ("!", CoarsePos::Period),
        ("(", CoarsePos::OpenBracket),
        (")", CoarsePos::CloseBracket),
        (",", CoarsePos::Comma),
    ] {
        assert_eq!(
            unknown(surface, "名詞,サ変接続,*,*").coarse_pos(),
            expected,
            "{surface}"
        );
    }
    assert_eq!(
        unknown("ｶﾀｶﾅ", "名詞,一般,*,*").coarse_pos(),
        CoarsePos::Noun
    );
    assert_eq!(
        unknown("2026", "名詞,数,*,*").coarse_pos(),
        CoarsePos::Numeral
    );
    assert_eq!(
        unknown("C++", "名詞,固有名詞,組織,*").coarse_pos(),
        CoarsePos::ProperNoun
    );
    assert_eq!(
        token("＠", "名詞,サ変接続,*,*", "＠").coarse_pos(),
        CoarsePos::Noun
    );
}

#[test]
fn test_unrecognized_pos_is_other() {
    for pos in ["", "*,*,*,*", "未知の品詞,*,*,*"] {
        assert_eq!(
            token("語", pos, "語").coarse_pos(),
            CoarsePos::Other,
            "{pos:?}"
        );
    }
    assert_eq!(token("語", "名詞", "語").coarse_pos(), CoarsePos::Noun);
}

#[test]
fn test_negation_by_base_form() {
    for (surface, pos, base_form) in [
        ("ない", "助動詞,*,*,*", "ない"),
        ("なかっ", "助動詞,*,*,*", "ない"),
        ("ん", "助動詞,*,*,*", "ん"),
        ("ぬ", "助動詞,*,*,*", "ぬ"),
        ("ず", "助動詞,*,*,*", "ぬ"),
        ("ざる", "助動詞,*,*,*", "ぬ"),
        ("無けれ", "助動詞,*,*,*", "無い"),
        ("へん", "助動詞,*,*,*", "へん"),
        ("なかっ", "形容詞,自立,*,*", "ない"),
        ("無い", "形容詞,自立,*,*", "無い"),
        ("ん", "助動詞,*,*,*", "ず"),
        ("ぬ", "助動詞,*,*,*", "ず"),
        ("ない", "助動詞,*,*,*", "ない"),
        ("ない", "形容詞,非自立可能,*,*", "無い"),
        ("なかれ", "形容詞,非自立可能,*,*", "無い"),
    ] {
        assert!(
            token(surface, pos, base_form).is_negation(),
            "{surface} {pos} {base_form}"
        );
    }
    for (surface, pos, base_form) in [
        ("ませ", "助動詞,*,*,*", "ます"),
        ("まい", "助動詞,*,*,*", "まい"),
        ("少ない", "形容詞,自立,*,*", "少ない"),
        ("できない", "形容詞,非自立,*,*", "できない"),
        ("ない", "動詞,自立,*,*", "なう"),
        ("ん", "名詞,非自立,一般,*", "ん"),
        ("ん", "助詞,準体助詞,*,*", "の"),
        ("ず", "動詞,自立,*,*", "ずる"),
    ] {
        assert!(
            !token(surface, pos, base_form).is_negation(),
            "{surface} {pos} {base_form}"
        );
    }
}

#[test]
fn test_mora_count_of_katakana() {
    for (pronunciation, expected) in [
        ("ア", 1),
        ("キャ", 1),
        ("キョウ", 2),
        ("トーキョー", 4),
        ("ガッコウ", 4),
        ("シンブン", 4),
        ("ファイル", 3),
        ("ヴァイオリン", 5),
        ("ティー", 2),
        ("クヮ", 1),
        ("ヶ", 1),
        ("ッ", 1),
        ("ァ", 1),
        ("ッァ", 2),
        ("アァァ", 2),
    ] {
        assert_eq!(
            spoken("", pronunciation).mora_count(),
            expected,
            "{pronunciation}"
        );
    }
}

#[test]
fn test_mora_count_ignores_non_kana_and_accepts_hiragana() {
    assert_eq!(spoken("", "きょう").mora_count(), 2);
    assert_eq!(spoken("", "がっこう").mora_count(), 4);
    assert_eq!(spoken("", "ジョン・スミス").mora_count(), 5);
    assert_eq!(spoken("", "。").mora_count(), 0);
    assert_eq!(spoken("", "").mora_count(), 0);
}

#[test]
fn test_mora_count_falls_back_to_reading() {
    assert_eq!(spoken("キョウ", "").mora_count(), 2);
    assert_eq!(spoken("ホウホウ", "方法").mora_count(), 4);
    assert_eq!(spoken("トウキョウ", "トーキョー").mora_count(), 4);
    assert_eq!(spoken("ハ", "ワ").mora_count(), 1);
}

#[test]
fn test_unit_symbols_are_noun_suffixes() {
    for surface in [
        "%", "％", "‰", "℃", "℉", "°", "㎏", "㎞", "㌢", "㍍", "㎡", "㏄", "㍱",
    ] {
        for t in [
            token(surface, "名詞,接尾,助数詞,*", surface),
            token(surface, "記号,一般,*,*", surface),
            token(surface, "補助記号,一般,*,*", surface),
            unknown(surface, "記号,一般,*,*"),
            unknown(surface, "名詞,サ変接続,*,*"),
        ] {
            assert_eq!(t.coarse_pos(), CoarsePos::NounSuffix, "{surface} {}", t.pos);
        }
    }
    for surface in ["＄", "′", "㍻", "㍿", "㏂", "㌀", "※"] {
        assert_eq!(
            unknown(surface, "記号,一般,*,*").coarse_pos(),
            CoarsePos::Symbol,
            "{surface}"
        );
    }
    assert_eq!(
        unknown("%。", "記号,一般,*,*").coarse_pos(),
        CoarsePos::Symbol
    );
}
