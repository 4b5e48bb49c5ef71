//! Coarse parts of speech that agree across dictionary schemes, negation, and mora counts.

use vstd::prelude::*;
use crate::lattice::Token;
use crate::sentence::chars::{is_sentence_ender, spec_is_sentence_ender};
use crate::sentence::marks::{bracket, spec_bracket};
use crate::sentence::exceptions::{is_alphanumeric, unicode_alphanumeric};
use crate::text::{chars_and_offsets, kana_char, str_eq, string_of};

verus! {

/// A part of speech that does not depend on the dictionary's scheme.
#[derive(Debug, Clone, Copy, PartialEq, Eq, Hash, Structural)]
pub enum CoarsePos {
    /// Common nouns, verbal nouns and adjectival-noun stems (UniDic's keiyōshi)
    Noun,
    /// Proper nouns
    ProperNoun,
    /// Pronouns
    Pronoun,
    /// Numerals
    Numeral,
    /// Noun suffixes (including counters)
    NounSuffix,
    /// Formal and dependent nouns (koto, mono, wake, tame; the nominalising no)
    FormalNoun,
    /// Verbs
    Verb,
    /// Adjectives
    Adjective,
    /// Auxiliary verbs (including passive and causative suffixes and the stems sō, yō, mitai)
    AuxVerb,
    /// Case particles (including IPAdic's adnominal no)
    CaseParticle,
    /// Conjunctive particles
    ConjunctiveParticle,
    /// Binding particles (wa, mo)
    BindingParticle,
    /// Sentence-final particles
    FinalParticle,
    /// Other particles (adverbial, parallel)
    OtherParticle,
    /// Adverbs
    Adverb,
    /// Adnominals (kono, sono)
    Adnominal,
    /// Conjunctions
    Conjunction,
    /// Interjections and fillers
    Interjection,
    /// Prefixes
    Prefix,
    /// Full stops (marks that end a sentence)
    Period,
    /// Commas
    Comma,
    /// Opening brackets
    OpenBracket,
    /// Closing brackets
    CloseBracket,
    /// Other symbols and blanks
    Symbol,
    /// A part of speech that no rule covers
    Other,
}

/// The part-of-speech scheme of a dictionary.
#[derive(Debug, Clone, Copy, PartialEq, Eq, Structural)]
pub enum PosScheme {
    /// IPAdic and the dictionaries mapped onto its parts of speech
    Ipadic,
    /// UniDic
    Unidic,
}

/// A rule: category, first and second subcategory (empty: any), and the coarse part of speech.
pub type PosRule = (Seq<char>, Seq<char>, Seq<char>, CoarsePos);

pub type ExecRule = (&'static str, &'static str, &'static str, CoarsePos);

pub open spec fn rules_view(t: Seq<ExecRule>) -> Seq<PosRule> {
    t.map_values(|r: ExecRule| (r.0@, r.1@, r.2@, r.3))
}

pub open spec fn strs_view(t: Seq<&'static str>) -> Seq<Seq<char>> {
    t.map_values(|s: &'static str| s@)
}

/// The ipadic rules, in the order they are tried.
pub open spec fn ipadic_table() -> Seq<PosRule> {
    seq![
        ("名詞"@, "固有名詞"@, ""@, CoarsePos::ProperNoun),
        ("名詞"@, "代名詞"@, ""@, CoarsePos::Pronoun),
        ("名詞"@, "数"@, ""@, CoarsePos::Numeral),
        ("名詞"@, "特殊"@, "助動詞語幹"@, CoarsePos::AuxVerb),
        ("名詞"@, "接尾"@, "助動詞語幹"@, CoarsePos::AuxVerb),
        ("名詞"@, "非自立"@, "助動詞語幹"@, CoarsePos::AuxVerb),
        ("名詞"@, "非自立"@, ""@, CoarsePos::FormalNoun),
        ("名詞"@, "接尾"@, ""@, CoarsePos::NounSuffix),
        ("名詞"@, ""@, ""@, CoarsePos::Noun),
        ("動詞"@, ""@, ""@, CoarsePos::Verb),
        ("形容詞"@, ""@, ""@, CoarsePos::Adjective),
        ("助動詞"@, ""@, ""@, CoarsePos::AuxVerb),
        ("助詞"@, "格助詞"@, ""@, CoarsePos::CaseParticle),
        ("助詞"@, "連体化"@, ""@, CoarsePos::CaseParticle),
        ("助詞"@, "副詞化"@, ""@, CoarsePos::CaseParticle),
        ("助詞"@, "接続助詞"@, ""@, CoarsePos::ConjunctiveParticle),
        ("助詞"@, "係助詞"@, ""@, CoarsePos::BindingParticle),
        ("助詞"@, "終助詞"@, ""@, CoarsePos::FinalParticle),
        ("助詞"@, ""@, ""@, CoarsePos::OtherParticle),
        ("副詞"@, ""@, ""@, CoarsePos::Adverb),
        ("連体詞"@, ""@, ""@, CoarsePos::Adnominal),
        ("接続詞"@, ""@, ""@, CoarsePos::Conjunction),
        ("感動詞"@, ""@, ""@, CoarsePos::Interjection),
        ("フィラー"@, ""@, ""@, CoarsePos::Interjection),
        ("接頭詞"@, ""@, ""@, CoarsePos::Prefix),
        ("記号"@, "句点"@, ""@, CoarsePos::Period),
        ("記号"@, "読点"@, ""@, CoarsePos::Comma),
        ("記号"@, "括弧開"@, ""@, CoarsePos::OpenBracket),
        ("記号"@, "括弧閉"@, ""@, CoarsePos::CloseBracket),
        ("記号"@, ""@, ""@, CoarsePos::Symbol),
    ]
}

fn ipadic_rules() -> (r: Vec<ExecRule>)
    ensures
        rules_view(r@) == ipadic_table(),
{
    let mut r: Vec<ExecRule> = Vec::new();
    r.push(("名詞", "固有名詞", "", CoarsePos::ProperNoun));
    r.push(("名詞", "代名詞", "", CoarsePos::Pronoun));
    r.push(("名詞", "数", "", CoarsePos::Numeral));
    r.push(("名詞", "特殊", "助動詞語幹", CoarsePos::AuxVerb));
    r.push(("名詞", "接尾", "助動詞語幹", CoarsePos::AuxVerb));
    r.push(("名詞", "非自立", "助動詞語幹", CoarsePos::AuxVerb));
    r.push(("名詞", "非自立", "", CoarsePos::FormalNoun));
    r.push(("名詞", "接尾", "", CoarsePos::NounSuffix));
    r.push(("名詞", "", "", CoarsePos::Noun));
    r.push(("動詞", "", "", CoarsePos::Verb));
    r.push(("形容詞", "", "", CoarsePos::Adjective));
    r.push(("助動詞", "", "", CoarsePos::AuxVerb));
    r.push(("助詞", "格助詞", "", CoarsePos::CaseParticle));
    r.push(("助詞", "連体化", "", CoarsePos::CaseParticle));
    r.push(("助詞", "副詞化", "", CoarsePos::CaseParticle));
    r.push(("助詞", "接続助詞", "", CoarsePos::ConjunctiveParticle));
    r.push(("助詞", "係助詞", "", CoarsePos::BindingParticle));
    r.push(("助詞", "終助詞", "", CoarsePos::FinalParticle));
    r.push(("助詞", "", "", CoarsePos::OtherParticle));
    r.push(("副詞", "", "", CoarsePos::Adverb));
    r.push(("連体詞", "", "", CoarsePos::Adnominal));
    r.push(("接続詞", "", "", CoarsePos::Conjunction));
    r.push(("感動詞", "", "", CoarsePos::Interjection));
    r.push(("フィラー", "", "", CoarsePos::Interjection));
    r.push(("接頭詞", "", "", CoarsePos::Prefix));
    r.push(("記号", "句点", "", CoarsePos::Period));
    r.push(("記号", "読点", "", CoarsePos::Comma));
    r.push(("記号", "括弧開", "", CoarsePos::OpenBracket));
    r.push(("記号", "括弧閉", "", CoarsePos::CloseBracket));
    r.push(("記号", "", "", CoarsePos::Symbol));
    proof {
        assert(rules_view(r@) =~= ipadic_table());
    }
    r
}

/// The unidic rules, in the order they are tried.
pub open spec fn unidic_table() -> Seq<PosRule> {
    seq![
        ("名詞"@, "固有名詞"@, ""@, CoarsePos::ProperNoun),
        ("名詞"@, "数詞"@, ""@, CoarsePos::Numeral),
        ("名詞"@, "助動詞語幹"@, ""@, CoarsePos::AuxVerb),
        ("名詞"@, ""@, ""@, CoarsePos::Noun),
        ("代名詞"@, ""@, ""@, CoarsePos::Pronoun),
        ("形状詞"@, "助動詞語幹"@, ""@, CoarsePos::AuxVerb),
        ("形状詞"@, ""@, ""@, CoarsePos::Noun),
        ("接尾辞"@, "名詞的"@, ""@, CoarsePos::NounSuffix),
        ("接尾辞"@, "形状詞的"@, ""@, CoarsePos::NounSuffix),
        ("接尾辞"@, "動詞的"@, ""@, CoarsePos::Verb),
        ("接尾辞"@, "形容詞的"@, ""@, CoarsePos::Adjective),
        ("接頭辞"@, ""@, ""@, CoarsePos::Prefix),
        ("動詞"@, ""@, ""@, CoarsePos::Verb),
        ("形容詞"@, ""@, ""@, CoarsePos::Adjective),
        ("助動詞"@, ""@, ""@, CoarsePos::AuxVerb),
        ("助詞"@, "格助詞"@, ""@, CoarsePos::CaseParticle),
        ("助詞"@, "接続助詞"@, ""@, CoarsePos::ConjunctiveParticle),
        ("助詞"@, "係助詞"@, ""@, CoarsePos::BindingParticle),
        ("助詞"@, "終助詞"@, ""@, CoarsePos::FinalParticle),
        ("助詞"@, "準体助詞"@, ""@, CoarsePos::FormalNoun),
        ("助詞"@, ""@, ""@, CoarsePos::OtherParticle),
        ("副詞"@, ""@, ""@, CoarsePos::Adverb),
        ("連体詞"@, ""@, ""@, CoarsePos::Adnominal),
        ("接続詞"@, ""@, ""@, CoarsePos::Conjunction),
        ("感動詞"@, ""@, ""@, CoarsePos::Interjection),
        ("補助記号"@, "句点"@, ""@, CoarsePos::Period),
        ("補助記号"@, "読点"@, ""@, CoarsePos::Comma),
        ("補助記号"@, "括弧開"@, ""@, CoarsePos::OpenBracket),
        ("補助記号"@, "括弧閉"@, ""@, CoarsePos::CloseBracket),
        ("補助記号"@, ""@, ""@, CoarsePos::Symbol),
        ("記号"@, ""@, ""@, CoarsePos::Symbol),
        ("空白"@, ""@, ""@, CoarsePos::Symbol),
    ]
}

fn unidic_rules() -> (r: Vec<ExecRule>)
    ensures
        rules_view(r@) == unidic_table(),
{
    let mut r: Vec<ExecRule> = Vec::new();
    r.push(("名詞", "固有名詞", "", CoarsePos::ProperNoun));
    r.push(("名詞", "数詞", "", CoarsePos::Numeral));
    r.push(("名詞", "助動詞語幹", "", CoarsePos::AuxVerb));
    r.push(("名詞", "", "", CoarsePos::Noun));
    r.push(("代名詞", "", "", CoarsePos::Pronoun));
    r.push(("形状詞", "助動詞語幹", "", CoarsePos::AuxVerb));
    r.push(("形状詞", "", "", CoarsePos::Noun));
    r.push(("接尾辞", "名詞的", "", CoarsePos::NounSuffix));
    r.push(("接尾辞", "形状詞的", "", CoarsePos::NounSuffix));
    r.push(("接尾辞", "動詞的", "", CoarsePos::Verb));
    r.push(("接尾辞", "形容詞的", "", CoarsePos::Adjective));
    r.push(("接頭辞", "", "", CoarsePos::Prefix));
    r.push(("動詞", "", "", CoarsePos::Verb));
    r.push(("形容詞", "", "", CoarsePos::Adjective));
    r.push(("助動詞", "", "", CoarsePos::AuxVerb));
    r.push(("助詞", "格助詞", "", CoarsePos::CaseParticle));
    r.push(("助詞", "接続助詞", "", CoarsePos::ConjunctiveParticle));
    r.push(("助詞", "係助詞", "", CoarsePos::BindingParticle));
    r.push(("助詞", "終助詞", "", CoarsePos::FinalParticle));
    r.push(("助詞", "準体助詞", "", CoarsePos::FormalNoun));
    r.push(("助詞", "", "", CoarsePos::OtherParticle));
    r.push(("副詞", "", "", CoarsePos::Adverb));
    r.push(("連体詞", "", "", CoarsePos::Adnominal));
    r.push(("接続詞", "", "", CoarsePos::Conjunction));
    r.push(("感動詞", "", "", CoarsePos::Interjection));
    r.push(("補助記号", "句点", "", CoarsePos::Period));
    r.push(("補助記号", "読点", "", CoarsePos::Comma));
    r.push(("補助記号", "括弧開", "", CoarsePos::OpenBracket));
    r.push(("補助記号", "括弧閉", "", CoarsePos::CloseBracket));
    r.push(("補助記号", "", "", CoarsePos::Symbol));
    r.push(("記号", "", "", CoarsePos::Symbol));
    r.push(("空白", "", "", CoarsePos::Symbol));
    proof {
        assert(rules_view(r@) =~= unidic_table());
    }
    r
}

/// Categories that only the UniDic scheme has.
pub open spec fn unidic_only_pos1() -> Seq<Seq<char>> {
    seq!["代名詞"@, "形状詞"@, "接尾辞"@, "接頭辞"@, "補助記号"@, "空白"@]
}

fn unidic_only_pos1_list() -> (r: Vec<&'static str>)
    ensures
        strs_view(r@) == unidic_only_pos1(),
{
    let mut r: Vec<&'static str> = Vec::new();
    r.push("代名詞");
    r.push("形状詞");
    r.push("接尾辞");
    r.push("接頭辞");
    r.push("補助記号");
    r.push("空白");
    proof {
        assert(strs_view(r@) =~= unidic_only_pos1());
    }
    r
}

/// First subcategories that only the UniDic scheme has.
pub open spec fn unidic_only_pos2() -> Seq<Seq<char>> {
    seq!["普通名詞"@, "数詞"@, "助動詞語幹"@, "非自立可能"@, "準体助詞"@, "文字"@]
}

fn unidic_only_pos2_list() -> (r: Vec<&'static str>)
    ensures
        strs_view(r@) == unidic_only_pos2(),
{
    let mut r: Vec<&'static str> = Vec::new();
    r.push("普通名詞");
    r.push("数詞");
    r.push("助動詞語幹");
    r.push("非自立可能");
    r.push("準体助詞");
    r.push("文字");
    proof {
        assert(strs_view(r@) =~= unidic_only_pos2());
    }
    r
}

/// Passive and causative auxiliaries that IPAdic files as verb suffixes (base forms).
pub open spec fn ipadic_suffix_aux_verbs() -> Seq<Seq<char>> {
    seq!["れる"@, "られる"@, "せる"@, "させる"@, "しめる"@, "す"@, "さす"@]
}

fn ipadic_suffix_aux_verbs_list() -> (r: Vec<&'static str>)
    ensures
        strs_view(r@) == ipadic_suffix_aux_verbs(),
{
    let mut r: Vec<&'static str> = Vec::new();
    r.push("れる");
    r.push("られる");
    r.push("せる");
    r.push("させる");
    r.push("しめる");
    r.push("す");
    r.push("さす");
    proof {
        assert(strs_view(r@) =~= ipadic_suffix_aux_verbs());
    }
    r
}

/// Auxiliary stems that IPAdic files as dependent adjectival-noun stems (base forms).
pub open spec fn ipadic_aux_verb_stems() -> Seq<Seq<char>> {
    seq!["みたい"@]
}

fn ipadic_aux_verb_stems_list() -> (r: Vec<&'static str>)
    ensures
        strs_view(r@) == ipadic_aux_verb_stems(),
{
    let mut r: Vec<&'static str> = Vec::new();
    r.push("みたい");
    proof {
        assert(strs_view(r@) =~= ipadic_aux_verb_stems());
    }
    r
}

/// Formal nouns that UniDic files as common nouns (surface forms).
pub open spec fn unidic_formal_nouns() -> Seq<Seq<char>> {
    seq!["こと"@, "もの"@, "もん"@, "わけ"@, "はず"@, "つもり"@, "ところ"@, "とき"@, "ため"@, "うち"@, "まま"@, "ほう"@, "とおり"@, "たび"@, "くせ"@, "せい"@, "うえ"@, "かぎり"@, "ついで"@, "ふり"@, "すえ"@, "とたん"@, "あまり"@, "なか"@, "ころ"@, "ゆえ"@, "ふう"@, "筈"@, "為"@, "儘"@]
}

fn unidic_formal_nouns_list() -> (r: Vec<&'static str>)
    ensures
        strs_view(r@) == unidic_formal_nouns(),
{
    let mut r: Vec<&'static str> = Vec::new();
    r.push("こと");
    r.push("もの");
    r.push("もん");
    r.push("わけ");
    r.push("はず");
    r.push("つもり");
    r.push("ところ");
    r.push("とき");
    r.push("ため");
    r.push("うち");
    r.push("まま");
    r.push("ほう");
    r.push("とおり");
    r.push("たび");
    r.push("くせ");
    r.push("せい");
    r.push("うえ");
    r.push("かぎり");
    r.push("ついで");
    r.push("ふり");
    r.push("すえ");
    r.push("とたん");
    r.push("あまり");
    r.push("なか");
    r.push("ころ");
    r.push("ゆえ");
    r.push("ふう");
    r.push("筈");
    r.push("為");
    r.push("儘");
    proof {
        assert(strs_view(r@) =~= unidic_formal_nouns());
    }
    r
}

/// Base forms of the negative auxiliaries.
pub open spec fn negative_aux_verbs() -> Seq<Seq<char>> {
    seq!["ない"@, "無い"@, "ぬ"@, "ん"@, "ず"@, "へん"@, "ひん"@]
}

fn negative_aux_verbs_list() -> (r: Vec<&'static str>)
    ensures
        strs_view(r@) == negative_aux_verbs(),
{
    let mut r: Vec<&'static str> = Vec::new();
    r.push("ない");
    r.push("無い");
    r.push("ぬ");
    r.push("ん");
    r.push("ず");
    r.push("へん");
    r.push("ひん");
    proof {
        assert(strs_view(r@) =~= negative_aux_verbs());
    }
    r
}

/// Base forms of the negative adjective.
pub open spec fn negative_adjectives() -> Seq<Seq<char>> {
    seq!["ない"@, "無い"@]
}

fn negative_adjectives_list() -> (r: Vec<&'static str>)
    ensures
        strs_view(r@) == negative_adjectives(),
{
    let mut r: Vec<&'static str> = Vec::new();
    r.push("ない");
    r.push("無い");
    proof {
        assert(strs_view(r@) =~= negative_adjectives());
    }
    r
}

pub open spec fn row_matches(r: PosRule, p1: Seq<char>, p2: Seq<char>, p3: Seq<char>) -> bool {
    r.0 == p1 && (r.1.len() == 0 || r.1 == p2) && (r.2.len() == 0 || r.2 == p3)
}

/// The coarse part of speech of the first rule from `i` on that matches; `Other` if none does.
pub open spec fn lookup_from(t: Seq<PosRule>, p1: Seq<char>, p2: Seq<char>, p3: Seq<char>, i: int) -> CoarsePos
    decreases t.len() - i,
{
    if i < 0 || i >= t.len() {
        CoarsePos::Other
    } else if row_matches(t[i], p1, p2, p3) {
        t[i].3
    } else {
        lookup_from(t, p1, p2, p3, i + 1)
    }
}

fn lookup(table: &Vec<ExecRule>, pos1: &str, pos2: &str, pos3: &str) -> (r: CoarsePos)
    ensures
        r == lookup_from(rules_view(table@), pos1@, pos2@, pos3@, 0),
{
    let ghost t = rules_view(table@);
    let mut i: usize = 0;
    while i < table.len()
        invariant
            i <= table@.len(),
            t == rules_view(table@),
            lookup_from(t, pos1@, pos2@, pos3@, 0) == lookup_from(t, pos1@, pos2@, pos3@, i as int),
        decreases table@.len() - i,
    {
        let (p1, p2, p3, coarse) = table[i];
        proof {
            assert(t[i as int] == (p1@, p2@, p3@, coarse));
        }
        if str_eq(p1, pos1) && (p2.is_empty() || str_eq(p2, pos2)) && (p3.is_empty() || str_eq(p3, pos3)) {
            return coarse;
        }
        i = i + 1;
    }
    CoarsePos::Other
}

fn contains_str(list: &Vec<&'static str>, x: &str) -> (r: bool)
    ensures
        r == strs_view(list@).contains(x@),
{
    let ghost t = strs_view(list@);
    let mut i: usize = 0;
    while i < list.len()
        invariant
            i <= list@.len(),
            t == strs_view(list@),
            forall|j: int| 0 <= j < i ==> t[j] != x@,
        decreases list@.len() - i,
    {
        if str_eq(list[i], x) {
            proof {
                assert(t[i as int] == x@);
            }
            return true;
        }
        i = i + 1;
    }
    false
}

/// The scheme that a category and first subcategory belong to: UniDic when either occurs only
/// there, else IPAdic (pairs found in both schemes map to the same coarse part of speech).
pub open spec fn spec_detect(p1: Seq<char>, p2: Seq<char>) -> PosScheme {
    if unidic_only_pos1().contains(p1) || unidic_only_pos2().contains(p2) {
        PosScheme::Unidic
    } else {
        PosScheme::Ipadic
    }
}

impl PosScheme {
    pub fn detect(pos1: &str, pos2: &str) -> (r: PosScheme)
        ensures
            r == spec_detect(pos1@, pos2@),
    {
        if contains_str(&unidic_only_pos1_list(), pos1) || contains_str(&unidic_only_pos2_list(), pos2) {
            PosScheme::Unidic
        } else {
            PosScheme::Ipadic
        }
    }
}

pub open spec fn spec_ipadic_coarse_pos(p1: Seq<char>, p2: Seq<char>, p3: Seq<char>, base_form: Seq<char>) -> CoarsePos {
    let aux_verb = if p1 == "動詞"@ && p2 == "接尾"@ {
        ipadic_suffix_aux_verbs().contains(base_form)
    } else if p1 == "名詞"@ && p2 == "非自立"@ {
        ipadic_aux_verb_stems().contains(base_form)
    } else {
        false
    };
    if aux_verb {
        CoarsePos::AuxVerb
    } else {
        lookup_from(ipadic_table(), p1, p2, p3, 0)
    }
}

/// The coarse part of speech of an IPAdic-scheme part of speech.
pub fn ipadic_coarse_pos(pos1: &str, pos2: &str, pos3: &str, base_form: &str) -> (r: CoarsePos)
    ensures
        r == spec_ipadic_coarse_pos(pos1@, pos2@, pos3@, base_form@),
{
    let aux_verb = if str_eq(pos1, "動詞") && str_eq(pos2, "接尾") {
        contains_str(&ipadic_suffix_aux_verbs_list(), base_form)
    } else if str_eq(pos1, "名詞") && str_eq(pos2, "非自立") {
        contains_str(&ipadic_aux_verb_stems_list(), base_form)
    } else {
        false
    };
    if aux_verb {
        return CoarsePos::AuxVerb;
    }
    lookup(&ipadic_rules(), pos1, pos2, pos3)
}

pub open spec fn spec_unidic_coarse_pos(p1: Seq<char>, p2: Seq<char>, p3: Seq<char>, surface: Seq<char>) -> CoarsePos {
    if p1 == "名詞"@ && p2 == "普通名詞"@ && unidic_formal_nouns().contains(surface) {
        CoarsePos::FormalNoun
    } else {
        lookup_from(unidic_table(), p1, p2, p3, 0)
    }
}

/// The coarse part of speech of a UniDic-scheme part of speech.
pub fn unidic_coarse_pos(pos1: &str, pos2: &str, pos3: &str, surface: &str) -> (r: CoarsePos)
    ensures
        r == spec_unidic_coarse_pos(pos1@, pos2@, pos3@, surface@),
{
    if str_eq(pos1, "名詞") && str_eq(pos2, "普通名詞") && contains_str(&unidic_formal_nouns_list(), surface) {
        return CoarsePos::FormalNoun;
    }
    lookup(&unidic_rules(), pos1, pos2, pos3)
}

/// Index of the first comma of `s`, or its length.
pub open spec fn comma_index(s: Seq<char>) -> int
    decreases s.len(),
{
    if s.len() == 0 {
        0
    } else if s[0] == ',' {
        0
    } else {
        1 + comma_index(s.drop_first())
    }
}

/// Field `k` of the comma-separated `s` (empty when there are fewer fields).
pub open spec fn pos_field(s: Seq<char>, k: nat) -> Seq<char>
    decreases k,
{
    if k == 0 {
        s.take(comma_index(s))
    } else if comma_index(s) < s.len() {
        pos_field(s.skip(comma_index(s) + 1), (k - 1) as nat)
    } else {
        Seq::empty()
    }
}

proof fn lemma_comma_index_bounds(s: Seq<char>)
    ensures
        0 <= comma_index(s) <= s.len(),
    decreases s.len(),
{
    if s.len() > 0 && s[0] != ',' {
        lemma_comma_index_bounds(s.drop_first());
    }
}

proof fn lemma_comma_index(s: Seq<char>, m: int)
    requires
        0 <= m <= s.len(),
        forall|j: int| 0 <= j < m ==> s[j] != ',',
        m == s.len() || s[m] == ',',
    ensures
        comma_index(s) == m,
    decreases m,
{
    if m > 0 {
        lemma_comma_index(s.drop_first(), m - 1);
    }
}

/// The field that starts at `from`, and where the next one starts if a comma ends it.
fn next_field(cs: &Vec<char>, from: usize) -> (r: (Vec<char>, Option<usize>))
    requires
        from <= cs@.len(),
    ensures
        0 <= comma_index(cs@.skip(from as int)) <= cs@.len() - from,
        r.0@ == cs@.skip(from as int).take(comma_index(cs@.skip(from as int))),
        (comma_index(cs@.skip(from as int)) < cs@.len() - from) <==> r.1 is Some,
        r.1 matches Some(k) ==> k == from + comma_index(cs@.skip(from as int)) + 1,
{
    let mut out: Vec<char> = Vec::new();
    let mut i = from;
    while i < cs.len() && cs[i] != ','
        invariant
            from <= i <= cs@.len(),
            out@ == cs@.subrange(from as int, i as int),
            forall|j: int| from <= j < i ==> cs@[j] != ',',
        decreases cs@.len() - i,
    {
        out.push(cs[i]);
        proof {
            assert(cs@.subrange(from as int, i + 1) =~= cs@.subrange(from as int, i as int).push(cs@[i as int]));
        }
        i = i + 1;
    }
    proof {
        let s = cs@.skip(from as int);
        lemma_comma_index(s, i - from);
        lemma_comma_index_bounds(s);
        assert(out@ =~= s.take(i - from));
    }
    if i < cs.len() {
        (out, Some(i + 1))
    } else {
        (out, None)
    }
}

/// The category and the first two subcategories of a part of speech.
fn pos_fields(pos: &str) -> (r: (String, String, String))
    ensures
        r.0@ == pos_field(pos@, 0),
        r.1@ == pos_field(pos@, 1),
        r.2@ == pos_field(pos@, 2),
{
    let (cs, _) = chars_and_offsets(pos);
    let ghost s = pos@;
    let (f0, n1) = next_field(&cs, 0);
    proof {
        assert(cs@.skip(0) =~= s);
    }
    let mut f1: Vec<char> = Vec::new();
    let mut f2: Vec<char> = Vec::new();
    match n1 {
        Some(a) => {
            let (g1, n2) = next_field(&cs, a);
            f1 = g1;
            proof {
                let r1 = s.skip(comma_index(s) + 1);
                assert(cs@ == s);
                assert(comma_index(cs@.skip(0)) == comma_index(s));
                assert(a == comma_index(s) + 1);
                assert(cs@.skip(a as int) =~= r1);
                assert(pos_field(s, 1) == pos_field(r1, 0));
                assert(f1@ == pos_field(r1, 0));
            }
            match n2 {
                Some(b) => {
                    let (g2, _) = next_field(&cs, b);
                    f2 = g2;
                    proof {
                        let r1 = s.skip(comma_index(s) + 1);
                        let r2 = r1.skip(comma_index(r1) + 1);
                        assert(cs@.skip(a as int) =~= r1);
                        assert(comma_index(cs@.skip(a as int)) == comma_index(r1));
                        assert(b == a + comma_index(r1) + 1);
                        assert(cs@.skip(b as int) =~= r2);
                        assert(pos_field(r2, 0) == r2.take(comma_index(r2)));
                        assert(pos_field(r1, 1) == pos_field(r2, 0));
                    }
                },
                None => {
                    proof {
                        let r1 = s.skip(comma_index(s) + 1);
                        assert(pos_field(r1, 1) == Seq::<char>::empty());
                        assert(f2@ =~= Seq::<char>::empty());
                    }
                },
            }
        },
        None => {
            proof {
                assert(comma_index(cs@.skip(0)) == comma_index(s));
                assert(pos_field(s, 1) == Seq::<char>::empty());
                assert(pos_field(s, 2) == Seq::<char>::empty());
                assert(f1@ =~= Seq::<char>::empty());
                assert(f2@ =~= Seq::<char>::empty());
            }
        },
    }
    (string_of(f0.as_slice()), string_of(f1.as_slice()), string_of(f2.as_slice()))
}

/// A unit mark that follows numbers (percent signs, degrees and the CJK compatibility units).
pub open spec fn spec_is_unit_symbol(c: char) -> bool {
    let x = c as u32;
    ||| x == 0x25 || x == 0xFF05 || x == 0x2030 || x == 0x2103 || x == 0x2109 || x == 0xB0
    ||| (0x3300 <= x <= 0x3357 && !(x == 0x3300 || x == 0x3301 || x == 0x330F || x == 0x331E || x == 0x332A
        || x == 0x3331 || x == 0x333C || x == 0x3341 || x == 0x3347))
    ||| x == 0x3371 || (0x3373 <= x <= 0x3374) || (0x3376 <= x <= 0x337A)
    ||| (0x3380 <= x <= 0x33DF && !(x == 0x33C2 || x == 0x33C7 || x == 0x33CD || x == 0x33CF || x == 0x33D1
        || x == 0x33D2 || x == 0x33D7 || x == 0x33D8 || x == 0x33DA))
}

pub fn is_unit_symbol(c: char) -> (r: bool)
    ensures
        r == spec_is_unit_symbol(c),
{
    let x = c as u32;
    if x == 0x25 || x == 0xFF05 || x == 0x2030 || x == 0x2103 || x == 0x2109 || x == 0xB0 {
        true
    } else if 0x3300 <= x && x <= 0x3357 {
        !(x == 0x3300 || x == 0x3301 || x == 0x330F || x == 0x331E || x == 0x332A || x == 0x3331 || x == 0x333C
            || x == 0x3341 || x == 0x3347)
    } else if x == 0x3371 || (0x3373 <= x && x <= 0x3374) || (0x3376 <= x && x <= 0x337A) {
        true
    } else if 0x3380 <= x && x <= 0x33DF {
        !(x == 0x33C2 || x == 0x33C7 || x == 0x33CD || x == 0x33CF || x == 0x33D1 || x == 0x33D2 || x == 0x33D7
            || x == 0x33D8 || x == 0x33DA)
    } else {
        false
    }
}

/// The class of a one-character mark: full stop, bracket, comma, or other symbol.
pub open spec fn spec_punctuation_kind(c: char) -> CoarsePos {
    if spec_is_sentence_ender(c) {
        CoarsePos::Period
    } else if spec_bracket(c) is Some {
        match spec_bracket(c) {
            Some((_, true)) => CoarsePos::OpenBracket,
            _ => CoarsePos::CloseBracket,
        }
    } else if c == '、' || c == '，' || c == '､' || c == ',' {
        CoarsePos::Comma
    } else {
        CoarsePos::Symbol
    }
}

fn punctuation_kind(c: char) -> (r: CoarsePos)
    ensures
        r == spec_punctuation_kind(c),
{
    if is_sentence_ender(c) {
        return CoarsePos::Period;
    }
    if let Some((_, open)) = bracket(c) {
        return if open {
            CoarsePos::OpenBracket
        } else {
            CoarsePos::CloseBracket
        };
    }
    if c == '、' || c == '，' || c == '､' || c == ',' {
        CoarsePos::Comma
    } else {
        CoarsePos::Symbol
    }
}

/// The surface holds no letter or digit (and is not empty).
pub open spec fn spec_is_symbol_only(s: Seq<char>) -> bool {
    s.len() > 0 && forall|i: int| 0 <= i < s.len() ==> !unicode_alphanumeric(#[trigger] s[i])
}

/// The class of a symbol by its surface: unit marks are noun suffixes; a surface made of one kind of
/// full stop, comma or bracket mark is that kind; anything else is a symbol.
pub open spec fn spec_symbol_by_surface(s: Seq<char>) -> CoarsePos {
    if s.len() > 0 && forall|i: int| 0 <= i < s.len() ==> spec_is_unit_symbol(#[trigger] s[i]) {
        CoarsePos::NounSuffix
    } else if s.len() == 0 {
        CoarsePos::Symbol
    } else if forall|i: int| 0 <= i < s.len() ==> spec_punctuation_kind(#[trigger] s[i]) == spec_punctuation_kind(s[0]) {
        spec_punctuation_kind(s[0])
    } else {
        CoarsePos::Symbol
    }
}

fn is_symbol_only(cs: &Vec<char>) -> (r: bool)
    ensures
        r == spec_is_symbol_only(cs@),
{
    if cs.len() == 0 {
        return false;
    }
    let mut i: usize = 0;
    while i < cs.len()
        invariant
            i <= cs@.len(),
            forall|j: int| 0 <= j < i ==> !unicode_alphanumeric(#[trigger] cs@[j]),
        decreases cs@.len() - i,
    {
        if is_alphanumeric(cs[i]) {
            return false;
        }
        i = i + 1;
    }
    true
}

fn symbol_by_surface(cs: &Vec<char>) -> (r: CoarsePos)
    ensures
        r == spec_symbol_by_surface(cs@),
{
    let mut all_units = cs.len() > 0;
    let mut i: usize = 0;
    while i < cs.len()
        invariant
            i <= cs@.len(),
            all_units == (cs@.len() > 0 && forall|j: int| 0 <= j < i ==> spec_is_unit_symbol(#[trigger] cs@[j])),
        decreases cs@.len() - i,
    {
        if !is_unit_symbol(cs[i]) {
            all_units = false;
        }
        i = i + 1;
    }
    if all_units {
        return CoarsePos::NounSuffix;
    }
    if cs.len() == 0 {
        return CoarsePos::Symbol;
    }
    let kind = punctuation_kind(cs[0]);
    let mut j: usize = 1;
    while j < cs.len()
        invariant
            1 <= j <= cs@.len(),
            kind == spec_punctuation_kind(cs@[0]),
            forall|k: int| 0 <= k < j ==> spec_punctuation_kind(#[trigger] cs@[k]) == kind,
        decreases cs@.len() - j,
    {
        if punctuation_kind(cs[j]) != kind {
            return CoarsePos::Symbol;
        }
        j = j + 1;
    }
    kind
}

/// The code point of `c` with hiragana moved to katakana (other characters stay).
pub open spec fn spec_katakana_code(c: char) -> u32 {
    let x = c as u32;
    if (0x3041 <= x <= 0x3096) || x == 0x309D || x == 0x309E {
        (x + 0x60) as u32
    } else {
        x
    }
}

fn katakana_code(c: char) -> (r: u32)
    ensures
        r == spec_katakana_code(c),
{
    let x = c as u32;
    if (0x3041 <= x && x <= 0x3096) || x == 0x309D || x == 0x309E {
        kana_char((x + 0x60 - 0x30A0) as u8) as u32
    } else {
        x
    }
}

/// A small kana that makes one mora with the kana before it.
pub open spec fn is_combining_small_kana(x: u32) -> bool {
    x == 0x30E3 || x == 0x30E5 || x == 0x30E7 || x == 0x30A1 || x == 0x30A3 || x == 0x30A5 || x == 0x30A7
        || x == 0x30A9 || x == 0x30EE
}

/// A katakana letter, the long-vowel mark or an iteration mark.
pub open spec fn is_mora_kana(x: u32) -> bool {
    (0x30A1 <= x <= 0x30FA) || x == 0x30FC || x == 0x30FD || x == 0x30FE
}

/// Mora count of the first `k` characters, and whether the last of them can take a small kana.
pub open spec fn morae(s: Seq<char>, k: int) -> (int, bool)
    decreases k,
{
    if k <= 0 {
        (0, false)
    } else {
        let (n, onset) = morae(s, k - 1);
        let x = spec_katakana_code(s[k - 1]);
        if is_combining_small_kana(x) {
            (if onset { n } else { n + 1 }, false)
        } else if is_mora_kana(x) {
            (n + 1, !(x == 0x30C3 || x == 0x30FC))
        } else {
            (n, false)
        }
    }
}

proof fn lemma_morae_bound(s: Seq<char>, k: int)
    requires
        0 <= k,
    ensures
        0 <= morae(s, k).0 <= k,
    decreases k,
{
    if k > 0 {
        lemma_morae_bound(s, k - 1);
    }
}

fn count_morae(s: &str) -> (r: usize)
    ensures
        r == morae(s@, s@.len() as int).0,
{
    let (cs, _) = chars_and_offsets(s);
    let mut count: usize = 0;
    let mut onset = false;
    let mut i: usize = 0;
    while i < cs.len()
        invariant
            i <= cs@.len(),
            cs@ == s@,
            (count as int, onset) == morae(s@, i as int),
        decreases cs@.len() - i,
    {
        proof {
            lemma_morae_bound(s@, i as int);
        }
        let x = katakana_code(cs[i]);
        if x == 0x30E3 || x == 0x30E5 || x == 0x30E7 || x == 0x30A1 || x == 0x30A3 || x == 0x30A5 || x == 0x30A7
            || x == 0x30A9 || x == 0x30EE {
            if !onset {
                count = count + 1;
            }
            onset = false;
        } else if (0x30A1 <= x && x <= 0x30FA) || x == 0x30FC || x == 0x30FD || x == 0x30FE {
            count = count + 1;
            onset = !(x == 0x30C3 || x == 0x30FC);
        } else {
            onset = false;
        }
        i = i + 1;
    }
    count
}

/// The coarse part of speech of a token (see [`Token::coarse_pos`]).
pub open spec fn spec_coarse_pos(surface: Seq<char>, pos: Seq<char>, base_form: Seq<char>, is_known: bool) -> CoarsePos {
    if !is_known && spec_is_symbol_only(surface) {
        spec_symbol_by_surface(surface)
    } else {
        let p1 = pos_field(pos, 0);
        let p2 = pos_field(pos, 1);
        let p3 = pos_field(pos, 2);
        let coarse = match spec_detect(p1, p2) {
            PosScheme::Ipadic => spec_ipadic_coarse_pos(p1, p2, p3, base_form),
            PosScheme::Unidic => spec_unidic_coarse_pos(p1, p2, p3, surface),
        };
        if coarse == CoarsePos::Symbol {
            spec_symbol_by_surface(surface)
        } else {
            coarse
        }
    }
}

/// The token is a negation: a negative auxiliary or the negative adjective, by base form.
pub open spec fn spec_is_negation(pos: Seq<char>, base_form: Seq<char>) -> bool {
    let p1 = pos_field(pos, 0);
    if p1 == "助動詞"@ {
        negative_aux_verbs().contains(base_form)
    } else if p1 == "形容詞"@ {
        negative_adjectives().contains(base_form)
    } else {
        false
    }
}

/// Morae of the pronunciation, or of the reading when the pronunciation has no kana.
pub open spec fn spec_mora_count(reading: Seq<char>, pronunciation: Seq<char>) -> int {
    let n = morae(pronunciation, pronunciation.len() as int).0;
    if n == 0 {
        morae(reading, reading.len() as int).0
    } else {
        n
    }
}

impl Token {
    /// The coarse part of speech, the same for a word whichever scheme its dictionary uses.
    ///
    /// Unknown words whose surface is symbols only, and symbols without a finer subcategory, are
    /// classified by their surface.
    pub fn coarse_pos(&self) -> (r: CoarsePos)
        ensures
            r == spec_coarse_pos(self.surface@, self.pos@, self.base_form@, self.is_known),
    {
        let (surface, _) = chars_and_offsets(self.surface.as_str());
        if !self.is_known && is_symbol_only(&surface) {
            return symbol_by_surface(&surface);
        }
        let (pos1, pos2, pos3) = pos_fields(self.pos.as_str());
        let coarse = match PosScheme::detect(pos1.as_str(), pos2.as_str()) {
            PosScheme::Ipadic => ipadic_coarse_pos(pos1.as_str(), pos2.as_str(), pos3.as_str(), self.base_form.as_str()),
            PosScheme::Unidic => unidic_coarse_pos(pos1.as_str(), pos2.as_str(), pos3.as_str(), self.surface.as_str()),
        };
        if coarse == CoarsePos::Symbol {
            symbol_by_surface(&surface)
        } else {
            coarse
        }
    }

    /// Whether the token is a negation (auxiliary nai, nu, n, zu, and the adjective nai), by base form.
    pub fn is_negation(&self) -> (r: bool)
        ensures
            r == spec_is_negation(self.pos@, self.base_form@),
    {
        let (pos1, _, _) = pos_fields(self.pos.as_str());
        if str_eq(pos1.as_str(), "助動詞") {
            contains_str(&negative_aux_verbs_list(), self.base_form.as_str())
        } else if str_eq(pos1.as_str(), "形容詞") {
            contains_str(&negative_adjectives_list(), self.base_form.as_str())
        } else {
            false
        }
    }

    /// The number of morae: of the pronunciation, or of the reading when the pronunciation has no
    /// kana. Small kana join the kana before them; sokuon, hatsuon and the long-vowel mark count
    /// one each; hiragana counts as katakana; other characters count nothing.
    pub fn mora_count(&self) -> (r: usize)
        ensures
            r == spec_mora_count(self.reading@, self.pronunciation@),
    {
        let n = count_morae(self.pronunciation.as_str());
        if n == 0 {
            count_morae(self.reading.as_str())
        } else {
            n
        }
    }
}

/// A small kana ャ ュ ョ ァ ィ ゥ ェ ォ ヮ right after a katakana that can take it (any full-size
/// katakana letter U+30A1..U+30FA but ッ U+30C3) forms one mora with it: the pair adds exactly
/// one to the mora count.
pub proof fn lemma_small_kana_joins(s: Seq<char>, i: int)
    requires
        0 <= i,
        i + 2 <= s.len(),
        0x30A1 <= s[i] as u32 <= 0x30FA,
        s[i] as u32 != 0x30C3,
        !(s[i] as u32 == 0x30E3 || s[i] as u32 == 0x30E5 || s[i] as u32 == 0x30E7 || s[i] as u32 == 0x30A1 || s[i] as u32
            == 0x30A3 || s[i] as u32 == 0x30A5 || s[i] as u32 == 0x30A7 || s[i] as u32 == 0x30A9 || s[i] as u32 == 0x30EE),
        s[i + 1] as u32 == 0x30E3 || s[i + 1] as u32 == 0x30E5 || s[i + 1] as u32 == 0x30E7 || s[i + 1] as u32 == 0x30A1
            || s[i + 1] as u32 == 0x30A3 || s[i + 1] as u32 == 0x30A5 || s[i + 1] as u32 == 0x30A7 || s[i + 1] as u32
            == 0x30A9 || s[i + 1] as u32 == 0x30EE,
    ensures
        morae(s, i + 2).0 == morae(s, i).0 + 1,
{
    assert(spec_katakana_code(s[i]) == s[i] as u32);
    assert(spec_katakana_code(s[i + 1]) == s[i + 1] as u32);
    assert(s.take(i + 1).drop_last() =~= s.take(i)) by {};
    assert(morae(s, i + 1) == (morae(s, i).0 + 1, true));
}

/// Any full-size katakana letter is a mora of its own.
pub proof fn lemma_full_kana_counts(s: Seq<char>, i: int)
    requires
        0 <= i < s.len(),
        0x30A1 <= s[i] as u32 <= 0x30FA,
        !(s[i] as u32 == 0x30E3 || s[i] as u32 == 0x30E5 || s[i] as u32 == 0x30E7 || s[i] as u32 == 0x30A1 || s[i] as u32
            == 0x30A3 || s[i] as u32 == 0x30A5 || s[i] as u32 == 0x30A7 || s[i] as u32 == 0x30A9 || s[i] as u32 == 0x30EE),
    ensures
        morae(s, i + 1).0 == morae(s, i).0 + 1,
{
    assert(spec_katakana_code(s[i]) == s[i] as u32);
}

/// ッ (U+30C3) and the long-vowel mark ー (U+30FC) are morae of their own and cannot take a small
/// kana: a small kana ャ ュ ョ ァ ィ ゥ ェ ォ ヮ right after one of them counts as a mora too.
pub proof fn lemma_small_kana_after_sokuon(s: Seq<char>, i: int)
    requires
        0 <= i,
        i + 2 <= s.len(),
        s[i] as u32 == 0x30C3 || s[i] as u32 == 0x30FC,
        s[i + 1] as u32 == 0x30E3 || s[i + 1] as u32 == 0x30E5 || s[i + 1] as u32 == 0x30E7 || s[i + 1] as u32 == 0x30A1
            || s[i + 1] as u32 == 0x30A3 || s[i + 1] as u32 == 0x30A5 || s[i + 1] as u32 == 0x30A7 || s[i + 1] as u32
            == 0x30A9 || s[i + 1] as u32 == 0x30EE,
    ensures
        morae(s, i + 2).0 == morae(s, i).0 + 2,
{
    assert(spec_katakana_code(s[i]) == s[i] as u32);
    assert(spec_katakana_code(s[i + 1]) == s[i + 1] as u32);
    assert(morae(s, i + 1) == (morae(s, i).0 + 1, false));
}

} // verus!
