//! The unit of analysis that the lattice produces, the least-cost path through a lattice, and the
//! readings that the context fixes.

use vstd::prelude::*;
use crate::text::{chars_and_offsets, kana_char, str_eq, string_of};
use crate::hsd::records::EntryRecord;
use crate::hsd::DictError;
use crate::hsd::trie::{char_reports, Trie};

verus! {

/// One token (morpheme) of an analysis.
#[derive(Debug, Clone)]
pub struct Token {
    /// Surface form
    pub surface: String,
    /// Start byte offset
    pub start: usize,
    /// End byte offset
    pub end: usize,
    /// Part of speech: the category and three subcategories joined by commas (`*` where absent)
    pub pos: String,
    /// Conjugation type; empty for words that do not conjugate and unknown words
    pub conj_type: String,
    /// Conjugation form; empty for words that do not conjugate and unknown words
    pub conj_form: String,
    /// Base form
    pub base_form: String,
    /// Reading
    pub reading: String,
    /// Pronunciation
    pub pronunciation: String,
    /// Word cost
    pub word_cost: i16,
    /// From the dictionary (`false`: unknown word)
    pub is_known: bool,
}

pub open spec fn opt_view(r: Option<&str>) -> Option<Seq<char>> {
    match r {
        Some(s) => Some(s@),
        None => None,
    }
}

/// The spelled-out reading of a Latin letter (either case).
pub open spec fn spec_alpha_to_kana(c: char) -> Option<Seq<char>> {
    if c == 'A' || c == 'a' {
        Some("エー"@)
    } else if c == 'B' || c == 'b' {
        Some("ビー"@)
    } else if c == 'C' || c == 'c' {
        Some("シー"@)
    } else if c == 'D' || c == 'd' {
        Some("ディー"@)
    } else if c == 'E' || c == 'e' {
        Some("イー"@)
    } else if c == 'F' || c == 'f' {
        Some("エフ"@)
    } else if c == 'G' || c == 'g' {
        Some("ジー"@)
    } else if c == 'H' || c == 'h' {
        Some("エイチ"@)
    } else if c == 'I' || c == 'i' {
        Some("アイ"@)
    } else if c == 'J' || c == 'j' {
        Some("ジェー"@)
    } else if c == 'K' || c == 'k' {
        Some("ケー"@)
    } else if c == 'L' || c == 'l' {
        Some("エル"@)
    } else if c == 'M' || c == 'm' {
        Some("エム"@)
    } else if c == 'N' || c == 'n' {
        Some("エヌ"@)
    } else if c == 'O' || c == 'o' {
        Some("オー"@)
    } else if c == 'P' || c == 'p' {
        Some("ピー"@)
    } else if c == 'Q' || c == 'q' {
        Some("キュー"@)
    } else if c == 'R' || c == 'r' {
        Some("アール"@)
    } else if c == 'S' || c == 's' {
        Some("エス"@)
    } else if c == 'T' || c == 't' {
        Some("ティー"@)
    } else if c == 'U' || c == 'u' {
        Some("ユー"@)
    } else if c == 'V' || c == 'v' {
        Some("ブイ"@)
    } else if c == 'W' || c == 'w' {
        Some("ダブリュー"@)
    } else if c == 'X' || c == 'x' {
        Some("エックス"@)
    } else if c == 'Y' || c == 'y' {
        Some("ワイ"@)
    } else if c == 'Z' || c == 'z' {
        Some("ゼット"@)
    } else {
        None
    }
}

fn alpha_to_kana(c: char) -> (r: Option<&'static str>)
    ensures
        opt_view(r) == spec_alpha_to_kana(c),
{
    if c == 'A' || c == 'a' {
        Some("エー")
    } else if c == 'B' || c == 'b' {
        Some("ビー")
    } else if c == 'C' || c == 'c' {
        Some("シー")
    } else if c == 'D' || c == 'd' {
        Some("ディー")
    } else if c == 'E' || c == 'e' {
        Some("イー")
    } else if c == 'F' || c == 'f' {
        Some("エフ")
    } else if c == 'G' || c == 'g' {
        Some("ジー")
    } else if c == 'H' || c == 'h' {
        Some("エイチ")
    } else if c == 'I' || c == 'i' {
        Some("アイ")
    } else if c == 'J' || c == 'j' {
        Some("ジェー")
    } else if c == 'K' || c == 'k' {
        Some("ケー")
    } else if c == 'L' || c == 'l' {
        Some("エル")
    } else if c == 'M' || c == 'm' {
        Some("エム")
    } else if c == 'N' || c == 'n' {
        Some("エヌ")
    } else if c == 'O' || c == 'o' {
        Some("オー")
    } else if c == 'P' || c == 'p' {
        Some("ピー")
    } else if c == 'Q' || c == 'q' {
        Some("キュー")
    } else if c == 'R' || c == 'r' {
        Some("アール")
    } else if c == 'S' || c == 's' {
        Some("エス")
    } else if c == 'T' || c == 't' {
        Some("ティー")
    } else if c == 'U' || c == 'u' {
        Some("ユー")
    } else if c == 'V' || c == 'v' {
        Some("ブイ")
    } else if c == 'W' || c == 'w' {
        Some("ダブリュー")
    } else if c == 'X' || c == 'x' {
        Some("エックス")
    } else if c == 'Y' || c == 'y' {
        Some("ワイ")
    } else if c == 'Z' || c == 'z' {
        Some("ゼット")
    } else {
        None
    }
}

/// The reading of a one-letter unit after a number (case matters: T is tesla, t is tonne).
pub open spec fn spec_unit_reading_char(c: char) -> Option<Seq<char>> {
    if c == 'W' {
        Some("ワット"@)
    } else if c == 'A' {
        Some("アンペア"@)
    } else if c == 'V' {
        Some("ボルト"@)
    } else if c == 'J' {
        Some("ジュール"@)
    } else if c == 'N' {
        Some("ニュートン"@)
    } else if c == 'T' {
        Some("テスラ"@)
    } else if c == 'F' {
        Some("ファラド"@)
    } else if c == 'H' {
        Some("ヘンリー"@)
    } else if c == 'K' {
        Some("ケルビン"@)
    } else if c == 'm' {
        Some("メートル"@)
    } else if c == 'g' {
        Some("グラム"@)
    } else if c == 't' {
        Some("トン"@)
    } else if c == 'L' || c == 'l' {
        Some("リットル"@)
    } else {
        None
    }
}

fn unit_reading_char(c: char) -> (r: Option<&'static str>)
    ensures
        opt_view(r) == spec_unit_reading_char(c),
{
    if c == 'W' {
        Some("ワット")
    } else if c == 'A' {
        Some("アンペア")
    } else if c == 'V' {
        Some("ボルト")
    } else if c == 'J' {
        Some("ジュール")
    } else if c == 'N' {
        Some("ニュートン")
    } else if c == 'T' {
        Some("テスラ")
    } else if c == 'F' {
        Some("ファラド")
    } else if c == 'H' {
        Some("ヘンリー")
    } else if c == 'K' {
        Some("ケルビン")
    } else if c == 'm' {
        Some("メートル")
    } else if c == 'g' {
        Some("グラム")
    } else if c == 't' {
        Some("トン")
    } else if c == 'L' || c == 'l' {
        Some("リットル")
    } else {
        None
    }
}

/// The reading of a unit of several letters after a number.
pub open spec fn spec_unit_reading_multi(s: Seq<char>) -> Option<Seq<char>> {
    if s == "Hz"@ {
        Some("ヘルツ"@)
    } else if s == "kHz"@ {
        Some("キロヘルツ"@)
    } else if s == "MHz"@ {
        Some("メガヘルツ"@)
    } else if s == "GHz"@ {
        Some("ギガヘルツ"@)
    } else if s == "km"@ {
        Some("キロメートル"@)
    } else if s == "cm"@ {
        Some("センチメートル"@)
    } else if s == "mm"@ {
        Some("ミリメートル"@)
    } else if s == "nm"@ {
        Some("ナノメートル"@)
    } else if s == "kg"@ {
        Some("キログラム"@)
    } else if s == "mg"@ {
        Some("ミリグラム"@)
    } else if s == "kW"@ {
        Some("キロワット"@)
    } else if s == "MW"@ {
        Some("メガワット"@)
    } else if s == "mA"@ {
        Some("ミリアンペア"@)
    } else if s == "kV"@ {
        Some("キロボルト"@)
    } else if s == "dB"@ {
        Some("デシベル"@)
    } else if s == "Pa"@ {
        Some("パスカル"@)
    } else if s == "hPa"@ {
        Some("ヘクトパスカル"@)
    } else if s == "kPa"@ {
        Some("キロパスカル"@)
    } else if s == "MPa"@ {
        Some("メガパスカル"@)
    } else if s == "KB"@ {
        Some("キロバイト"@)
    } else if s == "MB"@ {
        Some("メガバイト"@)
    } else if s == "GB"@ {
        Some("ギガバイト"@)
    } else if s == "TB"@ {
        Some("テラバイト"@)
    } else if s == "Wh"@ {
        Some("ワットアワー"@)
    } else if s == "kWh"@ {
        Some("キロワットアワー"@)
    } else if s == "Ah"@ {
        Some("アンペアアワー"@)
    } else if s == "mAh"@ {
        Some("ミリアンペアアワー"@)
    } else if s == "cc"@ {
        Some("シーシー"@)
    } else if s == "hp"@ {
        Some("馬力"@)
    } else if s == "rpm"@ {
        Some("アールピーエム"@)
    } else if s == "fps"@ {
        Some("エフピーエス"@)
    } else if s == "bps"@ {
        Some("ビーピーエス"@)
    } else if s == "Mbps"@ {
        Some("メガビーピーエス"@)
    } else if s == "Gbps"@ {
        Some("ギガビーピーエス"@)
    } else {
        None
    }
}

fn unit_reading_multi(s: &str) -> (r: Option<&'static str>)
    ensures
        opt_view(r) == spec_unit_reading_multi(s@),
{
    if str_eq(s, "Hz") {
        Some("ヘルツ")
    } else if str_eq(s, "kHz") {
        Some("キロヘルツ")
    } else if str_eq(s, "MHz") {
        Some("メガヘルツ")
    } else if str_eq(s, "GHz") {
        Some("ギガヘルツ")
    } else if str_eq(s, "km") {
        Some("キロメートル")
    } else if str_eq(s, "cm") {
        Some("センチメートル")
    } else if str_eq(s, "mm") {
        Some("ミリメートル")
    } else if str_eq(s, "nm") {
        Some("ナノメートル")
    } else if str_eq(s, "kg") {
        Some("キログラム")
    } else if str_eq(s, "mg") {
        Some("ミリグラム")
    } else if str_eq(s, "kW") {
        Some("キロワット")
    } else if str_eq(s, "MW") {
        Some("メガワット")
    } else if str_eq(s, "mA") {
        Some("ミリアンペア")
    } else if str_eq(s, "kV") {
        Some("キロボルト")
    } else if str_eq(s, "dB") {
        Some("デシベル")
    } else if str_eq(s, "Pa") {
        Some("パスカル")
    } else if str_eq(s, "hPa") {
        Some("ヘクトパスカル")
    } else if str_eq(s, "kPa") {
        Some("キロパスカル")
    } else if str_eq(s, "MPa") {
        Some("メガパスカル")
    } else if str_eq(s, "KB") {
        Some("キロバイト")
    } else if str_eq(s, "MB") {
        Some("メガバイト")
    } else if str_eq(s, "GB") {
        Some("ギガバイト")
    } else if str_eq(s, "TB") {
        Some("テラバイト")
    } else if str_eq(s, "Wh") {
        Some("ワットアワー")
    } else if str_eq(s, "kWh") {
        Some("キロワットアワー")
    } else if str_eq(s, "Ah") {
        Some("アンペアアワー")
    } else if str_eq(s, "mAh") {
        Some("ミリアンペアアワー")
    } else if str_eq(s, "cc") {
        Some("シーシー")
    } else if str_eq(s, "hp") {
        Some("馬力")
    } else if str_eq(s, "rpm") {
        Some("アールピーエム")
    } else if str_eq(s, "fps") {
        Some("エフピーエス")
    } else if str_eq(s, "bps") {
        Some("ビーピーエス")
    } else if str_eq(s, "Mbps") {
        Some("メガビーピーエス")
    } else if str_eq(s, "Gbps") {
        Some("ギガビーピーエス")
    } else {
        None
    }
}

/// The reading of a unit after a number: one letter, or a unit of several letters.
pub open spec fn spec_unit_reading(s: Seq<char>) -> Option<Seq<char>> {
    if s.len() == 1 {
        spec_unit_reading_char(s[0])
    } else {
        spec_unit_reading_multi(s)
    }
}

fn unit_reading(surface: &str) -> (r: Option<&'static str>)
    ensures
        opt_view(r) == spec_unit_reading(surface@),
{
    let (cs, _) = chars_and_offsets(surface);
    if cs.len() == 1 {
        return unit_reading_char(cs[0]);
    }
    unit_reading_multi(surface)
}

/// `s` starts with `p`.
pub open spec fn has_prefix(s: Seq<char>, p: Seq<char>) -> bool {
    p.len() <= s.len() && s.take(p.len() as int) == p
}

fn starts_with(s: &str, p: &str) -> (r: bool)
    ensures
        r == has_prefix(s@, p@),
{
    let (cs, _) = chars_and_offsets(s);
    let (ps, _) = chars_and_offsets(p);
    if ps.len() > cs.len() {
        return false;
    }
    let mut i: usize = 0;
    while i < ps.len()
        invariant
            ps@.len() <= cs@.len(),
            i <= ps@.len(),
            cs@ == s@,
            ps@ == p@,
            forall|j: int| 0 <= j < i ==> cs@[j] == ps@[j],
        decreases ps@.len() - i,
    {
        if cs[i] != ps[i] {
            proof {
                assert(s@.take(p@.len() as int)[i as int] != p@[i as int]);
            }
            return false;
        }
        i = i + 1;
    }
    proof {
        assert(s@.take(p@.len() as int) =~= p@);
    }
    true
}

pub open spec fn spec_is_digit(c: char) -> bool {
    ('0' <= c <= '9') || ('０' <= c <= '９')
}

/// A token that reads as a number: a numeral, or digits with `.` and `,` (at least one digit).
pub open spec fn spec_is_number_like(surface: Seq<char>, pos: Seq<char>) -> bool {
    ||| has_prefix(pos, "名詞,数"@)
    ||| (exists|i: int| 0 <= i < surface.len() && spec_is_digit(#[trigger] surface[i])) && forall|i: int|
        0 <= i < surface.len() ==> spec_is_digit(#[trigger] surface[i]) || surface[i] == '.' || surface[i] == ','
}

fn is_number_like(token: &Token) -> (r: bool)
    ensures
        r == spec_is_number_like(token.surface@, token.pos@),
{
    if starts_with(token.pos.as_str(), "名詞,数") {
        return true;
    }
    let (cs, _) = chars_and_offsets(token.surface.as_str());
    let mut any = false;
    let mut i: usize = 0;
    while i < cs.len()
        invariant
            i <= cs@.len(),
            cs@ == token.surface@,
            !has_prefix(token.pos@, "名詞,数"@),
            any == exists|j: int| 0 <= j < i && spec_is_digit(#[trigger] cs@[j]),
            forall|j: int| 0 <= j < i ==> spec_is_digit(#[trigger] cs@[j]) || cs@[j] == '.' || cs@[j] == ',',
        decreases cs@.len() - i,
    {
        let c = cs[i];
        let digit = ('0' <= c && c <= '9') || ('０' <= c && c <= '９');
        if !digit && c != '.' && c != ',' {
            proof {
                assert(!(spec_is_digit(token.surface@[i as int]) || token.surface@[i as int] == '.' || token.surface@[i as int] == ','));
            }
            return false;
        }
        if digit {
            any = true;
        }
        i = i + 1;
    }
    any
}

/// Katakana only (U+30A0..U+30FF), and not empty.
pub open spec fn spec_is_katakana_str(s: Seq<char>) -> bool {
    s.len() > 0 && forall|i: int| 0 <= i < s.len() ==> 0x30A0 <= #[trigger] s[i] as u32 <= 0x30FF
}

fn is_katakana_str(s: &str) -> (r: bool)
    ensures
        r == spec_is_katakana_str(s@),
{
    let (cs, _) = chars_and_offsets(s);
    if cs.len() == 0 {
        return false;
    }
    let mut i: usize = 0;
    while i < cs.len()
        invariant
            i <= cs@.len(),
            cs@ == s@,
            forall|j: int| 0 <= j < i ==> 0x30A0 <= #[trigger] cs@[j] as u32 <= 0x30FF,
        decreases cs@.len() - i,
    {
        let x = cs[i] as u32;
        if x < 0x30A0 || x > 0x30FF {
            return false;
        }
        i = i + 1;
    }
    true
}

/// The text fields of a token that the readings depend on: surface, part of speech, reading,
/// pronunciation, and whether it comes from the dictionary.
pub type TokenText = (Seq<char>, Seq<char>, Seq<char>, Seq<char>, bool);

pub open spec fn token_text(t: Token) -> TokenText {
    (t.surface@, t.pos@, t.reading@, t.pronunciation@, t.is_known)
}

pub open spec fn token_texts(ts: Seq<Token>) -> Seq<TokenText> {
    ts.map_values(|t: Token| token_text(t))
}

/// The dictionary's reading of a Latin word can be kept: a known word of more than two letters
/// whose reading and pronunciation are katakana (where present), and not both empty.
pub open spec fn spec_should_trust_dict_reading(t: TokenText) -> bool {
    &&& t.4
    &&& t.0.len() > 2
    &&& (t.2.len() == 0 || spec_is_katakana_str(t.2))
    &&& (t.3.len() == 0 || spec_is_katakana_str(t.3))
    &&& (t.2.len() > 0 || t.3.len() > 0)
}

fn should_trust_dict_reading(token: &Token) -> (r: bool)
    ensures
        r == spec_should_trust_dict_reading(token_text(*token)),
{
    if !token.is_known {
        return false;
    }
    let (cs, _) = chars_and_offsets(token.surface.as_str());
    if cs.len() <= 2 {
        return false;
    }
    if !token.reading.as_str().is_empty() && !is_katakana_str(token.reading.as_str()) {
        return false;
    }
    if !token.pronunciation.as_str().is_empty() && !is_katakana_str(token.pronunciation.as_str()) {
        return false;
    }
    !token.reading.as_str().is_empty() || !token.pronunciation.as_str().is_empty()
}

/// A numeral or a counter.
pub open spec fn spec_is_number_pos(pos: Seq<char>) -> bool {
    has_prefix(pos, "名詞,数"@) || has_prefix(pos, "名詞,接尾,助数詞"@)
}

fn is_number_pos(pos: &str) -> (r: bool)
    ensures
        r == spec_is_number_pos(pos@),
{
    starts_with(pos, "名詞,数") || starts_with(pos, "名詞,接尾,助数詞")
}

/// Token `i` follows a decimal point: a number, then 点.
pub open spec fn spec_after_decimal_point(ts: Seq<TokenText>, i: int) -> bool {
    i >= 2 && ts[i - 1].0 == "点"@ && spec_is_number_pos(ts[i - 2].1)
}

fn is_after_decimal_point(tokens: &Vec<Token>, i: usize) -> (r: bool)
    requires
        i < tokens@.len(),
    ensures
        r == spec_after_decimal_point(token_texts(tokens@), i as int),
{
    i >= 2 && str_eq(tokens[i - 1].surface.as_str(), "点") && is_number_pos(tokens[i - 2].pos.as_str())
}

/// Hiragana U+3041..U+3096.
pub open spec fn is_hiragana(c: char) -> bool {
    0x3041 <= c as u32 <= 0x3096
}

/// Katakana U+30A1..U+30F6, or the long-vowel mark.
pub open spec fn is_plain_katakana(c: char) -> bool {
    (0x30A1 <= c as u32 <= 0x30F6) || c == 'ー'
}

/// The katakana for a kana: hiragana moved up by 0x60, katakana as it is.
pub open spec fn katakana_of(c: char) -> char {
    if is_hiragana(c) {
        ((c as u32 + 0x60) as u32) as char
    } else {
        c
    }
}

/// The katakana reading of a surface made of kana only.
pub open spec fn spec_kana_reading(s: Seq<char>) -> Option<Seq<char>> {
    if s.len() > 0 && forall|i: int| 0 <= i < s.len() ==> is_hiragana(#[trigger] s[i]) || is_plain_katakana(s[i]) {
        Some(s.map_values(|c: char| katakana_of(c)))
    } else {
        None
    }
}

fn kana_reading(surface: &str) -> (r: Option<String>)
    ensures
        match r {
            Some(k) => spec_kana_reading(surface@) == Some(k@),
            None => spec_kana_reading(surface@) is None,
        },
{
    let (cs, _) = chars_and_offsets(surface);
    if cs.len() == 0 {
        return None;
    }
    let mut out: Vec<char> = Vec::new();
    let mut i: usize = 0;
    while i < cs.len()
        invariant
            i <= cs@.len(),
            cs@ == surface@,
            out@ == cs@.take(i as int).map_values(|c: char| katakana_of(c)),
            forall|j: int| 0 <= j < i ==> is_hiragana(#[trigger] cs@[j]) || is_plain_katakana(cs@[j]),
        decreases cs@.len() - i,
    {
        let c = cs[i];
        let x = c as u32;
        let k = if 0x3041 <= x && x <= 0x3096 {
            let r = kana_char((x + 0x60 - 0x30A0) as u8);
            proof {
                vstd::utf8::char_u32_cast(r, r as u32);
            }
            r
        } else if (0x30A1 <= x && x <= 0x30F6) || c == 'ー' {
            c
        } else {
            return None;
        };
        out.push(k);
        proof {
            assert(cs@.take(i + 1).map_values(|c: char| katakana_of(c)) =~= cs@.take(i as int).map_values(
                |c: char| katakana_of(c),
            ).push(k));
        }
        i = i + 1;
    }
    proof {
        assert(cs@.take(cs@.len() as int) =~= cs@);
    }
    Some(string_of(out.as_slice()))
}

/// The reading and pronunciation with the empty ones filled from a kana surface (`None`: both
/// are there, or the surface is not kana only).
pub open spec fn spec_fill_kana_reading(t: TokenText) -> Option<(Seq<char>, Seq<char>)> {
    if t.2.len() > 0 && t.3.len() > 0 {
        None
    } else {
        match spec_kana_reading(t.0) {
            None => None,
            Some(k) => Some((if t.2.len() == 0 { k } else { t.2 }, if t.3.len() == 0 { k } else { t.3 })),
        }
    }
}

/// A Latin letter.
pub open spec fn is_ascii_letter(c: char) -> bool {
    ('a' <= c <= 'z') || ('A' <= c <= 'Z')
}

pub open spec fn all_ascii_letters(s: Seq<char>) -> bool {
    forall|i: int| 0 <= i < s.len() ==> is_ascii_letter(#[trigger] s[i])
}

fn is_all_ascii_letters(cs: &Vec<char>) -> (r: bool)
    ensures
        r == all_ascii_letters(cs@),
{
    let mut i: usize = 0;
    while i < cs.len()
        invariant
            i <= cs@.len(),
            forall|j: int| 0 <= j < i ==> is_ascii_letter(#[trigger] cs@[j]),
        decreases cs@.len() - i,
    {
        let c = cs[i];
        if !(('a' <= c && c <= 'z') || ('A' <= c && c <= 'Z')) {
            return false;
        }
        i = i + 1;
    }
    true
}

/// The spelled-out readings of the first `k` letters.
pub open spec fn spelled(s: Seq<char>, k: int) -> Seq<char>
    decreases k,
{
    if k <= 0 {
        Seq::empty()
    } else {
        spelled(s, k - 1) + spec_alpha_to_kana(s[k - 1])->0
    }
}

/// The spelled-out reading of a word of Latin letters.
pub open spec fn spec_alphabet_reading(s: Seq<char>) -> Option<Seq<char>> {
    if s.len() > 0 && all_ascii_letters(s) {
        Some(spelled(s, s.len() as int))
    } else {
        None
    }
}

fn alphabet_reading(surface: &str) -> (r: Option<String>)
    ensures
        match r {
            Some(k) => spec_alphabet_reading(surface@) == Some(k@),
            None => spec_alphabet_reading(surface@) is None,
        },
{
    let (cs, _) = chars_and_offsets(surface);
    if cs.len() == 0 || !is_all_ascii_letters(&cs) {
        return None;
    }
    let mut out: Vec<char> = Vec::new();
    let mut i: usize = 0;
    while i < cs.len()
        invariant
            i <= cs@.len(),
            cs@ == surface@,
            all_ascii_letters(cs@),
            out@ == spelled(cs@, i as int),
        decreases cs@.len() - i,
    {
        let c = cs[i];
        proof {
            assert(is_ascii_letter(cs@[i as int]));
        }
        match alpha_to_kana(c) {
            Some(k) => {
                let (ks, _) = chars_and_offsets(k);
                let mut j: usize = 0;
                let ghost before = out@;
                while j < ks.len()
                    invariant
                        j <= ks@.len(),
                        out@ == before + ks@.take(j as int),
                    decreases ks@.len() - j,
                {
                    out.push(ks[j]);
                    proof {
                        assert(ks@.take(j + 1) =~= ks@.take(j as int).push(ks@[j as int]));
                    }
                    j = j + 1;
                }
                proof {
                    assert(ks@.take(ks@.len() as int) =~= ks@);
                }
            },
            None => {
                return None;
            },
        }
        i = i + 1;
    }
    Some(string_of(out.as_slice()))
}

/// The reading and pronunciation that the context gives token `i` of `ts` (the tokens before it
/// already fixed), or `None` where it keeps its own:
/// - 他 as a noun reads ホカ;
/// - 数 reads カズ unless a numeral or counter follows;
/// - 一節 right after a decimal point reads イチセツ;
/// - other non-Latin tokens: 々 repeats the reading before it, kana-only surfaces fill empty
///   readings;
/// - Latin tokens keep a trusted dictionary reading, take a unit reading after a number, or are
///   spelled out.
pub open spec fn spec_context_reading(ts: Seq<TokenText>, i: int) -> Option<(Seq<char>, Seq<char>)> {
    let t = ts[i];
    if t.0.len() == 0 {
        None
    } else if t.0 == "他"@ && has_prefix(t.1, "名詞,"@) && (t.2 == "タ"@ || t.3 == "タ"@) {
        Some(("ホカ"@, "ホカ"@))
    } else if t.0 == "数"@ && !(i + 1 < ts.len() && spec_is_number_pos(ts[i + 1].1)) && has_prefix(t.1, "名詞,一般,"@)
        && t.2 == "スウ"@ {
        Some(("カズ"@, "カズ"@))
    } else if t.0 == "一節"@ && spec_after_decimal_point(ts, i) {
        Some(("イチセツ"@, "イチセツ"@))
    } else if !all_ascii_letters(t.0) {
        if t.0 == "々"@ && t.3.len() == 0 && i > 0 && ts[i - 1].3.len() > 0 {
            Some((ts[i - 1].2, ts[i - 1].3))
        } else {
            spec_fill_kana_reading(t)
        }
    } else if spec_should_trust_dict_reading(t) {
        None
    } else if i > 0 && spec_is_number_like(ts[i - 1].0, ts[i - 1].1) && spec_unit_reading(t.0) is Some {
        Some((spec_unit_reading(t.0)->0, spec_unit_reading(t.0)->0))
    } else {
        let k = if t.0.len() == 1 {
            spec_alpha_to_kana(t.0[0])
        } else {
            spec_alphabet_reading(t.0)
        };
        match k {
            Some(k) => Some((k, k)),
            None => None,
        }
    }
}

/// The tokens after fixing the readings of the first `k`, one after another.
pub open spec fn readings_fixed(ts: Seq<TokenText>, k: int) -> Seq<TokenText>
    decreases k,
{
    if k <= 0 {
        ts
    } else {
        let prev = readings_fixed(ts, k - 1);
        match spec_context_reading(prev, k - 1) {
            Some((r, p)) => prev.update(k - 1, (prev[k - 1].0, prev[k - 1].1, r, p, prev[k - 1].4)),
            None => prev,
        }
    }
}

proof fn lemma_readings_fixed_len(ts: Seq<TokenText>, k: int)
    requires
        0 <= k <= ts.len(),
    ensures
        readings_fixed(ts, k).len() == ts.len(),
    decreases k,
{
    if k > 0 {
        lemma_readings_fixed_len(ts, k - 1);
        let prev = readings_fixed(ts, k - 1);
        match spec_context_reading(prev, k - 1) {
            Some((r, p)) => {
                assert(prev.update(k - 1, (prev[k - 1].0, prev[k - 1].1, r, p, prev[k - 1].4)).len() == prev.len());
            },
            None => {},
        }
    }
}

fn owned_pair(r: &str, p: &str) -> (o: (String, String))
    ensures
        o.0@ == r@,
        o.1@ == p@,
{
    (r.to_owned(), p.to_owned())
}

/// The exec form of [`spec_context_reading`].
fn context_reading(tokens: &Vec<Token>, i: usize) -> (r: Option<(String, String)>)
    requires
        i < tokens@.len(),
    ensures
        match r {
            Some((a, b)) => spec_context_reading(token_texts(tokens@), i as int) == Some((a@, b@)),
            None => spec_context_reading(token_texts(tokens@), i as int) is None,
        },
{
    let ghost ts = token_texts(tokens@);
    let t = &tokens[i];
    proof {
        assert(ts[i as int] == token_text(*t));
    }
    if t.surface.as_str().is_empty() {
        return None;
    }
    if str_eq(t.surface.as_str(), "他") && starts_with(t.pos.as_str(), "名詞,") && (str_eq(t.reading.as_str(), "タ")
        || str_eq(t.pronunciation.as_str(), "タ")) {
        return Some(owned_pair("ホカ", "ホカ"));
    }
    if str_eq(t.surface.as_str(), "数") {
        let next_is_number = i < tokens.len() - 1 && is_number_pos(tokens[i + 1].pos.as_str());
        proof {
            if i + 1 < tokens@.len() {
                assert(ts[i + 1] == token_text(tokens@[i + 1]));
            }
        }
        if !next_is_number && starts_with(t.pos.as_str(), "名詞,一般,") && str_eq(t.reading.as_str(), "スウ") {
            return Some(owned_pair("カズ", "カズ"));
        }
    }
    if str_eq(t.surface.as_str(), "一節") && is_after_decimal_point(tokens, i) {
        return Some(owned_pair("イチセツ", "イチセツ"));
    }
    let (cs, _) = chars_and_offsets(t.surface.as_str());
    if !is_all_ascii_letters(&cs) {
        if str_eq(t.surface.as_str(), "々") && t.pronunciation.as_str().is_empty() && i > 0 {
            let prev = &tokens[i - 1];
            proof {
                assert(ts[i - 1] == token_text(*prev));
            }
            if !prev.pronunciation.as_str().is_empty() {
                return Some((prev.reading.clone(), prev.pronunciation.clone()));
            }
        }
        if !t.reading.as_str().is_empty() && !t.pronunciation.as_str().is_empty() {
            return None;
        }
        return match kana_reading(t.surface.as_str()) {
            None => None,
            Some(k) => {
                let r = if t.reading.as_str().is_empty() {
                    k.clone()
                } else {
                    t.reading.clone()
                };
                let p = if t.pronunciation.as_str().is_empty() {
                    k
                } else {
                    t.pronunciation.clone()
                };
                Some((r, p))
            },
        };
    }
    if should_trust_dict_reading(t) {
        return None;
    }
    if i > 0 {
        let prev = &tokens[i - 1];
        proof {
            assert(ts[i - 1] == token_text(*prev));
        }
        if is_number_like(prev) {
            if let Some(u) = unit_reading(t.surface.as_str()) {
                return Some(owned_pair(u, u));
            }
        }
    }
    let kana = if cs.len() == 1 {
        match alpha_to_kana(cs[0]) {
            Some(k) => Some(k.to_owned()),
            None => None,
        }
    } else {
        alphabet_reading(t.surface.as_str())
    };
    match kana {
        Some(k) => Some((k.clone(), k)),
        None => None,
    }
}

fn with_reading(t: &Token, reading: String, pronunciation: String) -> (r: Token)
    ensures
        r.surface@ == t.surface@,
        r.start == t.start,
        r.end == t.end,
        r.pos@ == t.pos@,
        r.conj_type@ == t.conj_type@,
        r.conj_form@ == t.conj_form@,
        r.base_form@ == t.base_form@,
        r.reading@ == reading@,
        r.pronunciation@ == pronunciation@,
        r.word_cost == t.word_cost,
        r.is_known == t.is_known,
{
    Token {
        surface: t.surface.clone(),
        start: t.start,
        end: t.end,
        pos: t.pos.clone(),
        conj_type: t.conj_type.clone(),
        conj_form: t.conj_form.clone(),
        base_form: t.base_form.clone(),
        reading,
        pronunciation,
        word_cost: t.word_cost,
        is_known: t.is_known,
    }
}

/// Fixes the readings that the context decides ([`spec_context_reading`]), token after token;
/// only readings and pronunciations change.
pub fn apply_contextual_readings(tokens: &mut Vec<Token>)
    ensures
        final(tokens)@.len() == old(tokens)@.len(),
        token_texts(final(tokens)@) == readings_fixed(token_texts(old(tokens)@), old(tokens)@.len() as int),
        forall|j: int|
            0 <= j < old(tokens)@.len() ==> {
                &&& (#[trigger] final(tokens)@[j]).start == old(tokens)@[j].start
                &&& final(tokens)@[j].end == old(tokens)@[j].end
                &&& final(tokens)@[j].conj_type@ == old(tokens)@[j].conj_type@
                &&& final(tokens)@[j].conj_form@ == old(tokens)@[j].conj_form@
                &&& final(tokens)@[j].base_form@ == old(tokens)@[j].base_form@
                &&& final(tokens)@[j].word_cost == old(tokens)@[j].word_cost
            },
{
    let ghost ts0 = token_texts(tokens@);
    let mut i: usize = 0;
    while i < tokens.len()
        invariant
            i <= tokens@.len(),
            tokens@.len() == old(tokens)@.len(),
            ts0 == token_texts(old(tokens)@),
            token_texts(tokens@) == readings_fixed(ts0, i as int),
            forall|j: int|
                0 <= j < old(tokens)@.len() ==> {
                    &&& (#[trigger] tokens@[j]).start == old(tokens)@[j].start
                    &&& tokens@[j].end == old(tokens)@[j].end
                    &&& tokens@[j].conj_type@ == old(tokens)@[j].conj_type@
                    &&& tokens@[j].conj_form@ == old(tokens)@[j].conj_form@
                    &&& tokens@[j].base_form@ == old(tokens)@[j].base_form@
                    &&& tokens@[j].word_cost == old(tokens)@[j].word_cost
                },
        decreases tokens@.len() - i,
    {
        let ghost before = tokens@;
        match context_reading(tokens, i) {
            Some((r, p)) => {
                let nt = with_reading(&tokens[i], r, p);
                tokens.set(i, nt);
                proof {
                    assert(token_texts(tokens@) =~= readings_fixed(ts0, i + 1));
                }
            },
            None => {
                proof {
                    assert(token_texts(tokens@) =~= readings_fixed(ts0, i + 1));
                }
            },
        }
        i = i + 1;
    }
}

/// A node that the lattice may use: a word from character `start` to `end` with its context ids
/// and word cost (a dictionary entry or an unknown word).
#[derive(Clone, Copy, Debug, PartialEq, Eq)]
pub struct Candidate {
    pub start: usize,
    pub end: usize,
    pub left_id: u16,
    pub right_id: u16,
    pub cost: i16,
}

/// The connection cost from a node with right id `right` to one with left id `left`: row `left`
/// of the matrix, column `right`.
pub open spec fn conn(matrix: Seq<i16>, nr: int, left: int, right: int) -> int {
    matrix[left * nr + right] as int
}

/// The cost that candidate `c` adds after a node with right id `right`.
pub open spec fn step_cost(matrix: Seq<i16>, nr: int, right: int, c: Candidate) -> int {
    conn(matrix, nr, c.left_id as int, right) + c.cost as int
}

/// The cost of a path from BOS (right id 0) through the candidates `p`, without EOS.
pub open spec fn prefix_cost(matrix: Seq<i16>, nr: int, cs: Seq<Candidate>, p: Seq<int>) -> int
    decreases p.len(),
{
    if p.len() == 0 {
        0
    } else {
        prefix_cost(matrix, nr, cs, p.drop_last()) + step_cost(
            matrix,
            nr,
            if p.len() == 1 {
                0
            } else {
                cs[p[p.len() - 2]].right_id as int
            },
            cs[p.last()],
        )
    }
}

/// `p` is a path from the start of the text: candidates that follow each other, the first
/// starting at character 0.
pub open spec fn is_prefix_path(cs: Seq<Candidate>, p: Seq<int>) -> bool {
    &&& p.len() >= 1
    &&& forall|j: int| 0 <= j < p.len() ==> 0 <= #[trigger] p[j] < cs.len()
    &&& cs[p[0]].start == 0
    &&& forall|j: int| 0 <= j < p.len() - 1 ==> cs[#[trigger] p[j]].end == cs[p[j + 1]].start
}

/// `p` is a path through the whole text of `n` characters.
pub open spec fn is_path(cs: Seq<Candidate>, n: int, p: Seq<int>) -> bool {
    is_prefix_path(cs, p) && cs[p.last()].end == n
}

/// The cost of a whole path: its nodes, their connections, and the connection to EOS (left id 0).
pub open spec fn path_cost(matrix: Seq<i16>, nr: int, cs: Seq<Candidate>, p: Seq<int>) -> int {
    prefix_cost(matrix, nr, cs, p) + conn(matrix, nr, 0, cs[p.last()].right_id as int)
}

/// A lattice that the search takes: candidates within the text, in order of their starts, with
/// context ids inside the matrix (`num_right` columns per row; row 0 is EOS's).
pub open spec fn lattice_ok(n: int, cs: Seq<Candidate>, matrix: Seq<i16>, nr: int) -> bool {
    &&& 1 <= nr
    &&& nr <= matrix.len()
    &&& cs.len() < 0x100_0000_0000
    &&& forall|k: int| 0 <= k < cs.len() ==> (#[trigger] cs[k]).start < cs[k].end <= n
    &&& forall|k: int| 0 <= k < cs.len() ==> ((#[trigger] cs[k]).left_id + 1) * nr <= matrix.len() && cs[k].right_id < nr
    &&& forall|a: int, b: int| 0 <= a <= b < cs.len() ==> cs[a].start <= cs[b].start
}

fn conn_at(matrix: &[i16], nr: usize, left: u16, right: u16) -> (r: i64)
    requires
        (left + 1) * nr <= matrix@.len(),
        right < nr,
    ensures
        r == conn(matrix@, nr as int, left as int, right as int),
{
    let l = left as usize;
    let ml = matrix.len();
    assert(l * nr + right < ml) by (nonlinear_arith)
        requires
            (l + 1) * nr <= ml,
            right < nr,
    ;
    matrix[l * nr + right as usize] as i64
}

proof fn lemma_extend_path(matrix: Seq<i16>, nr: int, cs: Seq<Candidate>, pp: Seq<int>, i: int)
    requires
        is_prefix_path(cs, pp),
        0 <= i < cs.len(),
        cs[pp.last()].end == cs[i].start,
    ensures
        is_prefix_path(cs, pp.push(i)),
        pp.push(i).last() == i,
        prefix_cost(matrix, nr, cs, pp.push(i)) == prefix_cost(matrix, nr, cs, pp) + step_cost(
            matrix,
            nr,
            cs[pp.last()].right_id as int,
            cs[i],
        ),
{
    let np = pp.push(i);
    assert(np.drop_last() =~= pp);
    assert forall|j: int| 0 <= j < np.len() - 1 implies cs[#[trigger] np[j]].end == cs[np[j + 1]].start by {
        if j < pp.len() - 1 {
            assert(np[j] == pp[j] && np[j + 1] == pp[j + 1]);
        } else {
            assert(np[j] == pp.last());
        }
    };
}

proof fn lemma_single_path(matrix: Seq<i16>, nr: int, cs: Seq<Candidate>, i: int)
    requires
        0 <= i < cs.len(),
        cs[i].start == 0,
    ensures
        is_prefix_path(cs, seq![i]),
        prefix_cost(matrix, nr, cs, seq![i]) == step_cost(matrix, nr, 0, cs[i]),
{
    assert(seq![i].drop_last() =~= Seq::<int>::empty());
    assert(prefix_cost(matrix, nr, cs, Seq::<int>::empty()) == 0);
    assert(seq![i].last() == i);
}

proof fn lemma_drop_path(matrix: Seq<i16>, nr: int, cs: Seq<Candidate>, q: Seq<int>)
    requires
        is_prefix_path(cs, q),
        q.len() >= 2,
    ensures
        is_prefix_path(cs, q.drop_last()),
        q.drop_last().last() == q[q.len() - 2],
        cs[q[q.len() - 2]].end == cs[q.last()].start,
        prefix_cost(matrix, nr, cs, q) == prefix_cost(matrix, nr, cs, q.drop_last()) + step_cost(
            matrix,
            nr,
            cs[q[q.len() - 2]].right_id as int,
            cs[q.last()],
        ),
{
    let qd = q.drop_last();
    assert forall|j: int| 0 <= j < qd.len() - 1 implies cs[#[trigger] qd[j]].end == cs[qd[j + 1]].start by {
        assert(qd[j] == q[j] && qd[j + 1] == q[j + 1]);
    };
    assert(q[q.len() - 2] == q[(q.len() - 2) as int]);
}

/// The best earlier node for a candidate at position `start` (none at 0): among the reachable
/// candidates that end there, the first of least cost plus connection.
fn best_prev(
    cands: &[Candidate],
    matrix: &[i16],
    num_right: usize,
    best: &Vec<i64>,
    reach: &Vec<bool>,
    i: usize,
    left_id: u16,
    start: usize,
) -> (r: (bool, i64, usize))
    requires
        i <= cands@.len(),
        cands@.len() < 0x100_0000_0000,
        (left_id + 1) * num_right <= matrix@.len(),
        forall|k: int| 0 <= k < cands@.len() ==> (#[trigger] cands@[k]).right_id < num_right,
        best@.len() == i,
        reach@.len() == i,
        forall|k: int| 0 <= k < i && #[trigger] reach@[k] ==> -0x1_0000 * (k + 1) <= best@[k] <= 0x1_0000 * (k + 1),
    ensures
        r.0 ==> r.2 < i && reach@[r.2 as int] && cands@[r.2 as int].end == start && r.1 == best@[r.2 as int] + conn(
            matrix@,
            num_right as int,
            left_id as int,
            cands@[r.2 as int].right_id as int,
        ),
        r.0 ==> -0x1_0000 * (i + 1) <= r.1 <= 0x1_0000 * i + 0x8000,
        forall|k: int|
            0 <= k < i && #[trigger] reach@[k] && cands@[k].end == start ==> r.0 && r.1 <= best@[k] + conn(
                matrix@,
                num_right as int,
                left_id as int,
                cands@[k].right_id as int,
            ),
{
    let mut found = false;
    let mut bc: i64 = 0;
    let mut bp: usize = 0;
    let mut j: usize = 0;
    while j < i
        invariant
            i <= cands@.len(),
            cands@.len() < 0x100_0000_0000,
            (left_id + 1) * num_right <= matrix@.len(),
            forall|k: int| 0 <= k < cands@.len() ==> (#[trigger] cands@[k]).right_id < num_right,
            best@.len() == i,
            reach@.len() == i,
            forall|k: int| 0 <= k < i && #[trigger] reach@[k] ==> -0x1_0000 * (k + 1) <= best@[k] <= 0x1_0000 * (k + 1),
            j <= i,
            found ==> bp < j && reach@[bp as int] && cands@[bp as int].end == start && bc == best@[bp as int] + conn(
                matrix@,
                num_right as int,
                left_id as int,
                cands@[bp as int].right_id as int,
            ),
            found ==> -0x1_0000 * (i + 1) <= bc <= 0x1_0000 * i + 0x8000,
            forall|k: int|
                0 <= k < j && #[trigger] reach@[k] && cands@[k].end == start ==> found && bc <= best@[k] + conn(
                    matrix@,
                    num_right as int,
                    left_id as int,
                    cands@[k].right_id as int,
                ),
        decreases i - j,
    {
        let q = cands[j];
        if reach[j] && q.end == start {
            let t = best[j] + conn_at(matrix, num_right, left_id, q.right_id);
            if !found || t < bc {
                found = true;
                bc = t;
                bp = j;
            }
        }
        j = j + 1;
    }
    (found, bc, bp)
}

/// Each node is no dearer than its cost after any reachable node that ends where it starts
/// (after BOS at the start of the text).
pub open spec fn locally_best(mx: Seq<i16>, nr: int, cs: Seq<Candidate>, best: Seq<i64>, reach: Seq<bool>, i: int) -> bool {
    &&& forall|k: int| 0 <= k < i && cs[k].start == 0 ==> #[trigger] reach[k] && best[k] <= step_cost(mx, nr, 0, cs[k])
    &&& forall|k: int, j: int|
        #![trigger reach[j], reach[k]]
        0 <= j < k < i && reach[j] && cs[j].end == cs[k].start ==> reach[k] && best[k] <= best[j] + step_cost(
            mx,
            nr,
            cs[j].right_id as int,
            cs[k],
        )
}

proof fn lemma_locally_best_step(
    mx: Seq<i16>,
    nr: int,
    cs: Seq<Candidate>,
    best: Seq<i64>,
    reach: Seq<bool>,
    i: int,
    found: bool,
    nb: i64,
)
    requires
        0 <= i < cs.len(),
        best.len() == i,
        reach.len() == i,
        locally_best(mx, nr, cs, best, reach, i),
        cs[i].start == 0 ==> found && nb <= step_cost(mx, nr, 0, cs[i]),
        forall|j: int|
            0 <= j < i && #[trigger] reach[j] && cs[j].end == cs[i].start ==> found && nb <= best[j] + step_cost(
                mx,
                nr,
                cs[j].right_id as int,
                cs[i],
            ),
    ensures
        locally_best(mx, nr, cs, best.push(nb), reach.push(found), i + 1),
{
    let b2 = best.push(nb);
    let r2 = reach.push(found);
    assert forall|k: int| 0 <= k < i + 1 && cs[k].start == 0 implies #[trigger] r2[k] && b2[k] <= step_cost(mx, nr, 0, cs[k]) by {
        if k < i {
            assert(r2[k] == reach[k] && b2[k] == best[k]);
        }
    };
    assert forall|k: int, j: int|
        #![trigger r2[j], r2[k]]
        0 <= j < k < i + 1 && r2[j] && cs[j].end == cs[k].start implies r2[k] && b2[k] <= b2[j] + step_cost(
            mx,
            nr,
            cs[j].right_id as int,
            cs[k],
        ) by {
        assert(r2[j] == reach[j] && b2[j] == best[j]);
        if k < i {
            assert(r2[k] == reach[k] && b2[k] == best[k]);
            assert(reach[j] && reach[k]);
        } else {
            assert(reach[j]);
        }
    };
}

/// So no path to a node costs less than the node.
proof fn lemma_best_bound(mx: Seq<i16>, nr: int, cs: Seq<Candidate>, n: int, best: Seq<i64>, reach: Seq<bool>, q: Seq<int>)
    requires
        lattice_ok(n, cs, mx, nr),
        best.len() == cs.len(),
        reach.len() == cs.len(),
        locally_best(mx, nr, cs, best, reach, cs.len() as int),
        is_prefix_path(cs, q),
    ensures
        reach[q.last()],
        best[q.last()] <= prefix_cost(mx, nr, cs, q),
    decreases q.len(),
{
    let k = q.last();
    if q.len() == 1 {
        lemma_single_path(mx, nr, cs, k);
        assert(q =~= seq![k]);
        assert(reach[k]);
    } else {
        lemma_drop_path(mx, nr, cs, q);
        let qd = q.drop_last();
        let j = q[q.len() - 2];
        lemma_best_bound(mx, nr, cs, n, best, reach, qd);
        assert(cs[j].start < cs[j].end);
        if j >= k {
            assert(cs[k].start <= cs[j].start);
        }
        assert(reach[j] && reach[k]);
    }
}

/// The path that ends at `be`, found by following the best earlier nodes back to BOS.
fn trace_back(prev: &Vec<usize>, reach: &Vec<bool>, be: usize, paths: Ghost<Seq<Seq<int>>>) -> (out: Vec<usize>)
    requires
        be < prev@.len(),
        prev@.len() == reach@.len(),
        paths@.len() == prev@.len(),
        reach@[be as int],
        forall|k: int|
            0 <= k < prev@.len() && #[trigger] reach@[k] ==> (prev@[k] == usize::MAX ==> paths@[k] == seq![k]) && (prev@[k]
                != usize::MAX ==> prev@[k] < k && reach@[prev@[k] as int] && paths@[k] == paths@[prev@[k] as int].push(k)),
    ensures
        out@.map_values(|x: usize| x as int) == paths@[be as int],
{
    let ghost paths = paths@;
    let ghost pb = paths[be as int];
    let m = prev.len();
    let mut rev: Vec<usize> = Vec::new();
    let mut cur: usize = be;
    while prev[cur] != usize::MAX
        invariant
            cur < m,
            reach@[cur as int],
            prev@.len() == m,
            reach@.len() == m,
            paths.len() == m,
            forall|k: int|
                0 <= k < m && #[trigger] reach@[k] ==> (prev@[k] == usize::MAX ==> paths[k] == seq![k]) && (prev@[k]
                    != usize::MAX ==> prev@[k] < k && reach@[prev@[k] as int] && paths[k] == paths[prev@[k] as int].push(k)),
            pb == paths[cur as int] + rev@.map_values(|x: usize| x as int).reverse(),
        decreases cur,
    {
        let ghost old_rev = rev@.map_values(|x: usize| x as int);
        let ghost c0 = cur;
        rev.push(cur);
        cur = prev[cur];
        proof {
            assert(rev@.map_values(|x: usize| x as int) =~= old_rev.push(c0 as int));
            assert(old_rev.push(c0 as int).reverse() =~= seq![c0 as int] + old_rev.reverse());
            assert(paths[c0 as int] == paths[cur as int].push(c0 as int));
            assert(pb =~= paths[cur as int] + rev@.map_values(|x: usize| x as int).reverse());
        }
    }
    let ghost old_rev = rev@.map_values(|x: usize| x as int);
    rev.push(cur);
    proof {
        assert(rev@.map_values(|x: usize| x as int) =~= old_rev.push(cur as int));
        assert(old_rev.push(cur as int).reverse() =~= seq![cur as int] + old_rev.reverse());
        assert(pb =~= rev@.map_values(|x: usize| x as int).reverse());
    }
    let len = rev.len();
    let mut out: Vec<usize> = Vec::new();
    let mut k: usize = len;
    while k > 0
        invariant
            len == rev@.len(),
            k <= len,
            pb == rev@.map_values(|x: usize| x as int).reverse(),
            out@.len() == len - k,
            forall|t: int| 0 <= t < len - k ==> #[trigger] out@[t] == rev@[len - 1 - t],
        decreases k,
    {
        k = k - 1;
        out.push(rev[k]);
    }
    proof {
        let p = out@.map_values(|x: usize| x as int);
        assert(p =~= rev@.map_values(|x: usize| x as int).reverse());
    }
    proof {
        assert(out@.map_values(|x: usize| x as int) =~= pb);
    }
    out
}

/// The forward pass: for each candidate in order, whether BOS reaches it, its least cost from
/// BOS, and its best earlier node (`usize::MAX` for BOS), with the path that gives that cost.
fn forward(n: usize, cands: &[Candidate], matrix: &[i16], num_right: usize) -> (r: (Vec<i64>, Vec<usize>, Vec<bool>, Ghost<Seq<Seq<int>>>))
    requires
        lattice_ok(n as int, cands@, matrix@, num_right as int),
    ensures
        r.0@.len() == cands@.len(),
        r.1@.len() == cands@.len(),
        r.2@.len() == cands@.len(),
        r.3@.len() == cands@.len(),
        forall|k: int| 0 <= k < cands@.len() && #[trigger] r.2@[k] ==> -0x1_0000 * (k + 1) <= r.0@[k] <= 0x1_0000 * (k + 1),
        forall|k: int|
            0 <= k < cands@.len() && #[trigger] r.2@[k] ==> is_prefix_path(cands@, r.3@[k]) && r.3@[k].last() == k && prefix_cost(
                matrix@,
                num_right as int,
                cands@,
                r.3@[k],
            ) == r.0@[k],
        forall|k: int|
            0 <= k < cands@.len() && #[trigger] r.2@[k] ==> (r.1@[k] == usize::MAX ==> r.3@[k] == seq![k]) && (r.1@[k]
                != usize::MAX ==> r.1@[k] < k && r.2@[r.1@[k] as int] && r.3@[k] == r.3@[r.1@[k] as int].push(k)),
        locally_best(matrix@, num_right as int, cands@, r.0@, r.2@, cands@.len() as int),
{
    let ghost cs = cands@;
    let ghost mx = matrix@;
    let ghost nr = num_right as int;
    let m = cands.len();
    let mut best: Vec<i64> = Vec::new();
    let mut prev: Vec<usize> = Vec::new();
    let mut reach: Vec<bool> = Vec::new();
    let ghost mut paths: Seq<Seq<int>> = Seq::empty();
    let mut i: usize = 0;
    while i < m
        invariant
            m == cs.len(),
            cs == cands@,
            mx == matrix@,
            nr == num_right,
            lattice_ok(n as int, cs, mx, nr),
            i <= m,
            best@.len() == i,
            prev@.len() == i,
            reach@.len() == i,
            paths.len() == i,
            forall|k: int| 0 <= k < i && #[trigger] reach@[k] ==> -0x1_0000 * (k + 1) <= best@[k] <= 0x1_0000 * (k + 1),
            forall|k: int|
                0 <= k < i && #[trigger] reach@[k] ==> is_prefix_path(cs, paths[k]) && paths[k].last() == k && prefix_cost(
                    mx,
                    nr,
                    cs,
                    paths[k],
                ) == best@[k],
            forall|k: int|
                0 <= k < i && #[trigger] reach@[k] ==> (prev@[k] == usize::MAX ==> paths[k] == seq![k]) && (prev@[k]
                    != usize::MAX ==> prev@[k] < k && reach@[prev@[k] as int] && paths[k] == paths[prev@[k] as int].push(k)),
            locally_best(mx, nr, cs, best@, reach@, i as int),
        decreases m - i,
    {
        let c = cands[i];
        let (found, bc, bp) = if c.start == 0 {
            (true, conn_at(matrix, num_right, c.left_id, 0), usize::MAX)
        } else {
            best_prev(cands, matrix, num_right, &best, &reach, i, c.left_id, c.start)
        };
        let ghost newpath: Seq<int> = if c.start == 0 {
            seq![i as int]
        } else {
            paths[bp as int].push(i as int)
        };
        proof {
            if found {
                if c.start == 0 {
                    lemma_single_path(mx, nr, cs, i as int);
                } else {
                    lemma_extend_path(mx, nr, cs, paths[bp as int], i as int);
                }
            }
            lemma_locally_best_step(mx, nr, cs, best@, reach@, i as int, found, if found {
                (bc + c.cost as i64) as i64
            } else {
                0i64
            });
        }
        reach.push(found);
        best.push(if found {
            bc + c.cost as i64
        } else {
            0
        });
        prev.push(if c.start == 0 { usize::MAX } else { bp });
        proof {
            paths = paths.push(newpath);
        }
        i = i + 1;
    }
    (best, prev, reach, Ghost(paths))
}

/// The least-cost path through the candidates (ties go to the first candidate in order, as the
/// lattice adds them), as candidate indexes from the start of the text; `None` where no path
/// reaches the end.
#[verifier::rlimit(100)]
pub fn best_path(n: usize, cands: &[Candidate], matrix: &[i16], num_right: usize) -> (r: Option<Vec<usize>>)
    requires
        lattice_ok(n as int, cands@, matrix@, num_right as int),
    ensures
        r matches Some(p) ==> is_path(cands@, n as int, p@.map_values(|x: usize| x as int)) && forall|q: Seq<int>|
            is_path(cands@, n as int, q) ==> path_cost(matrix@, num_right as int, cands@, p@.map_values(|x: usize| x as int))
                <= #[trigger] path_cost(matrix@, num_right as int, cands@, q),
        r is None ==> forall|q: Seq<int>| !is_path(cands@, n as int, q),
{
    let ghost cs = cands@;
    let ghost mx = matrix@;
    let ghost nr = num_right as int;
    let m = cands.len();
    let (best, prev, reach, Ghost(paths)) = forward(n, cands, matrix, num_right);
    // EOS (left id 0): the best node that ends the text
    let (found, _, be) = best_prev(cands, matrix, num_right, &best, &reach, m, 0, n);
    if !found {
        proof {
            assert forall|q: Seq<int>| !is_path(cs, n as int, q) by {
                if is_path(cs, n as int, q) {
                    let k = q.last();
                    lemma_best_bound(mx, nr, cs, n as int, best@, reach@, q);
                    assert(reach@[k] && cs[k].end == n);
                }
            };
        }
        return None;
    }
    let ghost pb = paths[be as int];
    proof {
        assert(is_prefix_path(cs, pb) && pb.last() == be && prefix_cost(mx, nr, cs, pb) == best@[be as int]);
        assert forall|q: Seq<int>| is_path(cs, n as int, q) implies path_cost(mx, nr, cs, pb) <= #[trigger] path_cost(mx, nr, cs, q) by {
            let k = q.last();
            lemma_best_bound(mx, nr, cs, n as int, best@, reach@, q);
            assert(reach@[k] && cs[k].end == n);
        };
    }
    let out = trace_back(&prev, &reach, be, Ghost(paths));
    Some(out)
}

/// Where the group of entries that starts at `g` ends (after its entry marked last); `None` where
/// it runs past the last entry.
pub open spec fn group_end(entries: Seq<EntryRecord>, g: int) -> Option<int>
    decreases entries.len() - g,
{
    if g < 0 || g >= entries.len() {
        None
    } else if entries[g].left_and_last >= 0x8000 {
        Some(g + 1)
    } else {
        group_end(entries, g + 1)
    }
}

/// The candidates of entries `g..e` for a word from character `start` to `end`; `None` where a
/// context id lies outside the matrix (`nl` rows, `nr` columns).
pub open spec fn entry_cands(entries: Seq<EntryRecord>, nl: int, nr: int, start: int, end: int, g: int, e: int) -> Option<Seq<Candidate>>
    decreases e - g,
{
    if e <= g {
        Some(Seq::empty())
    } else {
        match entry_cands(entries, nl, nr, start, end, g, e - 1) {
            None => None,
            Some(cs) => {
                let x = entries[e - 1];
                if x.left_and_last % 0x8000 >= nl || x.right_id >= nr {
                    None
                } else {
                    Some(cs.push(Candidate {
                        start: start as usize,
                        end: end as usize,
                        left_id: (x.left_and_last % 0x8000) as u16,
                        right_id: x.right_id,
                        cost: x.cost,
                    }))
                }
            },
        }
    }
}

/// The candidates of the known words found at `start`: for each match (end, group) in order, the
/// entries of its group; `None` where a group is broken.
pub open spec fn known_cands(entries: Seq<EntryRecord>, nl: int, nr: int, start: int, ms: Seq<(usize, u32)>) -> Option<Seq<Candidate>>
    decreases ms.len(),
{
    if ms.len() == 0 {
        Some(Seq::empty())
    } else {
        match known_cands(entries, nl, nr, start, ms.drop_last()) {
            None => None,
            Some(cs) => {
                let (end, g) = ms.last();
                match group_end(entries, g as int) {
                    None => None,
                    Some(e) => match entry_cands(entries, nl, nr, start, end as int, g as int, e) {
                        None => None,
                        Some(more) => Some(cs + more),
                    },
                }
            },
        }
    }
}

/// Appends the candidates of the group at `g` for a word from `start` to `end`.
fn push_group(
    entries: &[EntryRecord],
    num_left: usize,
    num_right: usize,
    start: usize,
    end: usize,
    g: usize,
    out: &mut Vec<Candidate>,
) -> (r: bool)
    ensures
        r <==> (group_end(entries@, g as int) matches Some(e) && entry_cands(entries@, num_left as int, num_right as int, start as int, end as int, g as int, e) is Some),
        r ==> final(out)@ == old(out)@ + entry_cands(
            entries@,
            num_left as int,
            num_right as int,
            start as int,
            end as int,
            g as int,
            group_end(entries@, g as int)->0,
        )->0,
{
    let ghost base = out@;
    let mut id = g;
    proof {
        assert(out@ =~= base + Seq::<Candidate>::empty());
    }
    loop
        invariant
            g <= id,
            base == old(out)@,
            group_end(entries@, g as int) == group_end(entries@, id as int),
            entry_cands(entries@, num_left as int, num_right as int, start as int, end as int, g as int, id as int) is Some,
            out@ == base + entry_cands(entries@, num_left as int, num_right as int, start as int, end as int, g as int, id as int)->0,
        decreases entries@.len() - id,
    {
        if id >= entries.len() {
            return false;
        }
        let x = entries[id];
        let left = x.left_id();
        if left as usize >= num_left || x.right_id as usize >= num_right {
            proof {
                lemma_group_end_after(entries@, g as int, id as int);
                assert(entry_cands(entries@, num_left as int, num_right as int, start as int, end as int, g as int, id + 1) is None);
                match group_end(entries@, g as int) {
                    Some(e) => {
                        lemma_entry_cands_none(entries@, num_left as int, num_right as int, start as int, end as int, g as int, id + 1, e);
                    },
                    None => {},
                }
            }
            return false;
        }
        let ghost prev = out@;
        out.push(Candidate { start, end, left_id: left, right_id: x.right_id, cost: x.cost });
        proof {
            assert(out@ =~= base + entry_cands(entries@, num_left as int, num_right as int, start as int, end as int, g as int, id + 1)->0);
        }
        if x.is_last() {
            proof {
                assert(group_end(entries@, id as int) == Some(id + 1));
                assert(group_end(entries@, g as int) == Some(id + 1));
                assert(base == old(out)@);
            }
            return true;
        }
        proof {
            assert(group_end(entries@, id as int) == group_end(entries@, id + 1));
        }
        id = id + 1;
    }
}

proof fn lemma_group_end_after(entries: Seq<EntryRecord>, g: int, id: int)
    requires
        g <= id,
        group_end(entries, g) == group_end(entries, id),
        0 <= id < entries.len(),
    ensures
        group_end(entries, g) matches Some(e) ==> e > id,
    decreases entries.len() - id,
{
    if entries[id].left_and_last < 0x8000 {
        assert(group_end(entries, id) == group_end(entries, id + 1));
        if id + 1 < entries.len() {
            lemma_group_end_after(entries, g, id + 1);
        } else {
            assert(group_end(entries, id + 1) is None);
        }
    } else {
        assert(group_end(entries, id) == Some(id + 1));
    }
}

proof fn lemma_entry_cands_none(entries: Seq<EntryRecord>, nl: int, nr: int, start: int, end: int, g: int, k: int, e: int)
    requires
        g <= k <= e,
        entry_cands(entries, nl, nr, start, end, g, k) is None,
    ensures
        entry_cands(entries, nl, nr, start, end, g, e) is None,
    decreases e - k,
{
    if k < e {
        lemma_entry_cands_none(entries, nl, nr, start, end, g, k, e - 1);
    }
}

proof fn lemma_group_end_ge(entries: Seq<EntryRecord>, g: int)
    ensures
        group_end(entries, g) matches Some(e) ==> e > g,
    decreases entries.len() - g,
{
    if 0 <= g < entries.len() && entries[g].left_and_last < 0x8000 {
        lemma_group_end_ge(entries, g + 1);
    }
}

/// The candidates of the known words that start at character `start`: the trie's matches from
/// there (with the codes and offsets of the text's characters), each giving the entries of its
/// group, in order. Fails where the trie or a group is broken, or an entry's context ids lie
/// outside the matrix.
pub fn known_candidates(
    trie: &Trie,
    text: &str,
    codes: &[u16],
    offsets: &[u32],
    start: usize,
    entries: &[EntryRecord],
    num_left: usize,
    num_right: usize,
) -> (r: Result<Vec<Candidate>, DictError>)
    ensures
        r is Ok <==> trie.spec_codes_search(text, codes@, offsets@, start as int).1 && known_cands(
            entries@,
            num_left as int,
            num_right as int,
            start as int,
            char_reports(trie.spec_codes_search(text, codes@, offsets@, start as int).0, start as int),
        ) is Some,
        r matches Ok(v) ==> v@ == known_cands(
            entries@,
            num_left as int,
            num_right as int,
            start as int,
            char_reports(trie.spec_codes_search(text, codes@, offsets@, start as int).0, start as int),
        )->0,
        r matches Err(e) ==> e is Corrupt,
{
    let mut ms: Vec<(usize, u32)> = Vec::new();
    let searched = trie.common_prefix_search_codes(text, codes, offsets, start, &mut ms);
    proof {
        assert(ms@ =~= char_reports(trie.spec_codes_search(text, codes@, offsets@, start as int).0, start as int));
    }
    if let Err(e) = searched {
        return Err(DictError::Corrupt(e.message()));
    }
    let mut out: Vec<Candidate> = Vec::new();
    let mut i: usize = 0;
    proof {
        assert(ms@.take(0) =~= Seq::<(usize, u32)>::empty());
        assert(out@ =~= Seq::<Candidate>::empty());
    }
    while i < ms.len()
        invariant
            i <= ms@.len(),
            ms@ == char_reports(trie.spec_codes_search(text, codes@, offsets@, start as int).0, start as int),
            trie.spec_codes_search(text, codes@, offsets@, start as int).1,
            known_cands(entries@, num_left as int, num_right as int, start as int, ms@.take(i as int)) is Some,
            out@ == known_cands(entries@, num_left as int, num_right as int, start as int, ms@.take(i as int))->0,
        decreases ms@.len() - i,
    {
        let (end, g) = ms[i];
        proof {
            assert(ms@.take(i + 1).drop_last() =~= ms@.take(i as int));
            assert(ms@.take(i + 1).last() == ms@[i as int]);
        }
        if !push_group(entries, num_left, num_right, start, end, g as usize, &mut out) {
            proof {
                let t = ms@.take(i + 1);
                assert(t.last() == (end, g));
                assert(t.drop_last() =~= ms@.take(i as int));
                assert(known_cands(entries@, num_left as int, num_right as int, start as int, t) is None);
                lemma_known_cands_none(entries@, num_left as int, num_right as int, start as int, ms@, i as int + 1);
            }
            return Err(DictError::Corrupt("a group of entries is broken or has context ids outside the matrix".to_owned()));
        }
        i = i + 1;
    }
    proof {
        assert(ms@.take(ms@.len() as int) =~= ms@);
    }
    Ok(out)
}

/// Once a prefix of the matches gives no candidates, the whole does not either.
proof fn lemma_known_cands_none(entries: Seq<EntryRecord>, nl: int, nr: int, start: int, ms: Seq<(usize, u32)>, k: int)
    requires
        0 <= k <= ms.len(),
        known_cands(entries, nl, nr, start, ms.take(k)) is None,
    ensures
        known_cands(entries, nl, nr, start, ms) is None,
    decreases ms.len() - k,
{
    if k < ms.len() {
        assert(ms.take(k + 1).drop_last() =~= ms.take(k));
        lemma_known_cands_none(entries, nl, nr, start, ms, k + 1);
    } else {
        assert(ms.take(k) =~= ms);
    }
}

/// The unknown-word template at one position: whether unknown words are tried even where known
/// words start there, the template's context ids and cost, and the lengths (in characters) that
/// the grouping of the character type gives there.
pub struct UnkAt {
    pub invoke: bool,
    pub left_id: u16,
    pub right_id: u16,
    pub cost: i16,
    pub lens: Vec<u32>,
}

/// The unknown words at `start`: one per length, and a single character where no length is 1;
/// none where known words start there and the template does not insist.
pub open spec fn unk_cands(u: UnkAt, start: int, has_known: bool) -> Seq<Candidate> {
    if !(u.invoke || !has_known) {
        Seq::empty()
    } else {
        let one = Candidate { start: start as usize, end: (start + 1) as usize, left_id: u.left_id, right_id: u.right_id, cost: u.cost };
        let each = Seq::new(
            u.lens@.len(),
            |t: int| Candidate { start: start as usize, end: (start + u.lens@[t]) as usize, left_id: u.left_id, right_id: u.right_id, cost: u.cost },
        );
        if exists|t: int| 0 <= t < u.lens@.len() && u.lens@[t] == 1 {
            each
        } else {
            each.push(one)
        }
    }
}

/// Every candidate ends within the text of `n` characters.
pub open spec fn ends_within(cs: Seq<Candidate>, n: int) -> bool {
    forall|t: int| 0 <= t < cs.len() ==> (#[trigger] cs[t]).end <= n
}

/// The candidates that start at a reachable position `i`: the known words, then the unknown
/// words; `None` where the dictionary is broken there.
pub open spec fn cands_at(
    trie: Trie,
    text: &str,
    codes: Seq<u16>,
    offsets: Seq<u32>,
    entries: Seq<EntryRecord>,
    nl: int,
    nr: int,
    unks: Seq<UnkAt>,
    i: int,
) -> Option<Seq<Candidate>> {
    if !trie.spec_codes_search(text, codes, offsets, i).1 {
        None
    } else {
        match known_cands(entries, nl, nr, i, char_reports(trie.spec_codes_search(text, codes, offsets, i).0, i)) {
            None => None,
            Some(k) => if ends_within(k, codes.len() as int) {
                Some(k + unk_cands(unks[i], i, k.len() > 0))
            } else {
                None
            },
        }
    }
}

/// The candidates of the positions from `i` on, where `reached` holds the positions that the
/// candidates so far end at (BOS at 0): the positions that nothing reaches give none.
pub open spec fn cands_from(
    trie: Trie,
    text: &str,
    codes: Seq<u16>,
    offsets: Seq<u32>,
    entries: Seq<EntryRecord>,
    nl: int,
    nr: int,
    unks: Seq<UnkAt>,
    i: int,
    reached: Set<int>,
) -> Option<Seq<Candidate>>
    decreases codes.len() - i,
{
    if i >= codes.len() || i < 0 {
        Some(Seq::empty())
    } else if !reached.contains(i) {
        cands_from(trie, text, codes, offsets, entries, nl, nr, unks, i + 1, reached)
    } else {
        match cands_at(trie, text, codes, offsets, entries, nl, nr, unks, i) {
            None => None,
            Some(cs) => match cands_from(
                trie,
                text,
                codes,
                offsets,
                entries,
                nl,
                nr,
                unks,
                i + 1,
                reached.union(Set::new(|e: int| exists|t: int| 0 <= t < cs.len() && cs[t].end == e)),
            ) {
                None => None,
                Some(rest) => Some(cs + rest),
            },
        }
    }
}

/// `rest` after `first` (`None` stays `None`).
pub open spec fn after(first: Seq<Candidate>, rest: Option<Seq<Candidate>>) -> Option<Seq<Candidate>> {
    match rest {
        None => None,
        Some(r) => Some(first + r),
    }
}

/// The positions that the candidates `cs` end at.
pub open spec fn ends_of(cs: Seq<Candidate>) -> Set<int> {
    Set::new(|e: int| exists|t: int| 0 <= t < cs.len() && (#[trigger] cs[t]).end == e)
}

/// The unknown words at `start` (see [`unk_cands`]) after `here`.
fn push_unknown(u: &UnkAt, start: usize, n: usize, has_known: bool, here: &mut Vec<Candidate>)
    requires
        start < n,
        forall|t: int| 0 <= t < u.lens@.len() ==> 1 <= #[trigger] u.lens@[t] && start + u.lens@[t] <= n,
    ensures
        final(here)@ == old(here)@ + unk_cands(*u, start as int, has_known),
{
    if !(u.invoke || !has_known) {
        proof {
            assert(final(here)@ =~= old(here)@ + Seq::<Candidate>::empty());
        }
        return;
    }
    let ghost each = Seq::new(
        u.lens@.len(),
        |t: int| Candidate { start: start as usize, end: (start + u.lens@[t]) as usize, left_id: u.left_id, right_id: u.right_id, cost: u.cost },
    );
    let ghost base = here@;
    let mut single = false;
    let mut t: usize = 0;
    while t < u.lens.len()
        invariant
            t <= u.lens@.len(),
            start < n,
            forall|q: int| 0 <= q < u.lens@.len() ==> 1 <= #[trigger] u.lens@[q] && start + u.lens@[q] <= n,
            here@ == base + each.take(t as int),
            each.len() == u.lens@.len(),
            forall|q: int|
                0 <= q < each.len() ==> #[trigger] each[q] == (Candidate {
                    start: start as usize,
                    end: (start + u.lens@[q]) as usize,
                    left_id: u.left_id,
                    right_id: u.right_id,
                    cost: u.cost,
                }),
            single == exists|q: int| 0 <= q < t && u.lens@[q] == 1,
        decreases u.lens@.len() - t,
    {
        let len = u.lens[t];
        if len == 1 {
            single = true;
        }
        here.push(Candidate { start, end: start + len as usize, left_id: u.left_id, right_id: u.right_id, cost: u.cost });
        proof {
            assert(each.take(t + 1) =~= each.take(t as int).push(each[t as int]));
            assert(here@ =~= base + each.take(t + 1));
            if len == 1 {
                assert(exists|q: int| 0 <= q < t + 1 && u.lens@[q] == 1) by {
                    assert(u.lens@[t as int] == 1);
                };
            } else if single {
            } else {
                assert forall|q: int| 0 <= q < t + 1 implies u.lens@[q] != 1 by {
                    if q < t {
                    }
                };
            }
        }
        t = t + 1;
    }
    proof {
        assert(each.take(u.lens@.len() as int) =~= each);
    }
    if !single {
        here.push(Candidate { start, end: start + 1, left_id: u.left_id, right_id: u.right_id, cost: u.cost });
        proof {
            assert(here@ =~= base + each.push(Candidate { start: start as usize, end: (start + 1) as usize, left_id: u.left_id, right_id: u.right_id, cost: u.cost }));
        }
    }
}

/// The candidates of the lattice of a text of `codes.len()` characters: from each position that
/// BOS or an earlier candidate reaches, the known words (see [`known_candidates`]) and the
/// unknown words of `unks[position]` (see [`unk_cands`]), in the order of the positions. Fails
/// where the dictionary is broken at a reached position.
pub fn lattice_candidates(
    trie: &Trie,
    text: &str,
    codes: &[u16],
    offsets: &[u32],
    entries: &[EntryRecord],
    num_left: usize,
    num_right: usize,
    unks: &[UnkAt],
) -> (r: Result<Vec<Candidate>, DictError>)
    requires
        unks@.len() == codes@.len(),
        forall|i: int, t: int|
            0 <= i < unks@.len() && 0 <= t < unks@[i].lens@.len() ==> 1 <= #[trigger] unks@[i].lens@[t] && i
                + unks@[i].lens@[t] <= codes@.len(),
    ensures
        r is Ok <==> cands_from(*trie, text, codes@, offsets@, entries@, num_left as int, num_right as int, unks@, 0, set![0]) is Some,
        r matches Ok(v) ==> v@ == cands_from(
            *trie,
            text,
            codes@,
            offsets@,
            entries@,
            num_left as int,
            num_right as int,
            unks@,
            0,
            set![0],
        )->0,
        r matches Err(e) ==> e is Corrupt,
{
    let n = codes.len();
    let ghost whole = cands_from(*trie, text, codes@, offsets@, entries@, num_left as int, num_right as int, unks@, 0, set![0]);
    let mut reached: Vec<bool> = Vec::new();
    while reached.len() <= n
        invariant
            reached@.len() <= n + 1,
            forall|e: int| 0 <= e < reached@.len() ==> reached@[e] == (e == 0),
        decreases n + 1 - reached@.len(),
    {
        reached.push(reached.len() == 0);
    }
    let ghost mut rs: Set<int> = set![0];
    let mut out: Vec<Candidate> = Vec::new();
    let mut i: usize = 0;
    proof {
        assert(out@ + Seq::<Candidate>::empty() =~= out@);
        assert(after(out@, whole) == whole) by {
            match whole {
                None => {},
                Some(w) => {
                    assert(Seq::<Candidate>::empty() + w =~= w);
                },
            }
        };
    }
    while i < n
        invariant
            n == codes@.len(),
            unks@.len() == n,
            forall|i: int, t: int|
                0 <= i < unks@.len() && 0 <= t < unks@[i].lens@.len() ==> 1 <= #[trigger] unks@[i].lens@[t] && i
                    + unks@[i].lens@[t] <= codes@.len(),
            i <= n,
            reached@.len() == n + 1,
            forall|e: int| 0 <= e <= n ==> (reached@[e] <==> rs.contains(e)),
            whole == cands_from(*trie, text, codes@, offsets@, entries@, num_left as int, num_right as int, unks@, 0, set![0]),
            whole == after(out@, cands_from(*trie, text, codes@, offsets@, entries@, num_left as int, num_right as int, unks@, i as int, rs)),
        decreases n - i,
    {
        let ghost from_i = cands_from(*trie, text, codes@, offsets@, entries@, num_left as int, num_right as int, unks@, i as int, rs);
        if !reached[i] {
            i = i + 1;
            continue;
        }
        let known = match known_candidates(trie, text, codes, offsets, i, entries, num_left, num_right) {
            Ok(k) => k,
            Err(e) => {
                return Err(e);
            },
        };
        let mut t: usize = 0;
        while t < known.len()
            invariant
                t <= known@.len(),
                n == codes@.len(),
                i < n,
                reached@.len() == n + 1,
                reached@[i as int],
                forall|e: int| 0 <= e <= n ==> (reached@[e] <==> rs.contains(e)),
                whole == after(out@, from_i),
                whole == cands_from(*trie, text, codes@, offsets@, entries@, num_left as int, num_right as int, unks@, 0, set![0]),
                from_i == cands_from(*trie, text, codes@, offsets@, entries@, num_left as int, num_right as int, unks@, i as int, rs),
                trie.spec_codes_search(text, codes@, offsets@, i as int).1,
                known@ == known_cands(
                    entries@,
                    num_left as int,
                    num_right as int,
                    i as int,
                    char_reports(trie.spec_codes_search(text, codes@, offsets@, i as int).0, i as int),
                )->0,
                known_cands(
                    entries@,
                    num_left as int,
                    num_right as int,
                    i as int,
                    char_reports(trie.spec_codes_search(text, codes@, offsets@, i as int).0, i as int),
                ) is Some,
                forall|q: int| 0 <= q < t ==> (#[trigger] known@[q]).end <= n,
            decreases known@.len() - t,
        {
            if known[t].end > n {
                proof {
                    assert(!ends_within(known@, n as int));
                    assert(rs.contains(i as int));
                    assert(cands_at(*trie, text, codes@, offsets@, entries@, num_left as int, num_right as int, unks@, i as int) is None);
                    assert(from_i is None);
                }
                return Err(DictError::Corrupt("a known word ends past the text".to_owned()));
            }
            t = t + 1;
        }
        let mut here: Vec<Candidate> = Vec::new();
        let mut t: usize = 0;
        while t < known.len()
            invariant
                t <= known@.len(),
                here@ == known@.take(t as int),
            decreases known@.len() - t,
        {
            here.push(known[t]);
            proof {
                assert(known@.take(t + 1) =~= known@.take(t as int).push(known@[t as int]));
            }
            t = t + 1;
        }
        proof {
            assert(known@.take(known@.len() as int) =~= known@);
        }
        push_unknown(&unks[i], i, n, known.len() > 0, &mut here);
        let ghost cs = here@;
        let ghost rs2 = rs.union(ends_of(cs));
        let ghost before = out@;
        let mut t: usize = 0;
        while t < here.len()
            invariant
                n == codes@.len(),
                t <= here@.len(),
                cs == here@,
                reached@.len() == n + 1,
                forall|q: int| 0 <= q < cs.len() ==> (#[trigger] cs[q]).end <= n,
                forall|e: int| 0 <= e <= n ==> (reached@[e] <==> rs.union(ends_of(cs.take(t as int))).contains(e)),
                out@ == before + cs.take(t as int),
            decreases here@.len() - t,
        {
            let c = here[t];
            reached.set(c.end, true);
            out.push(c);
            proof {
                assert(cs.take(t + 1) =~= cs.take(t as int).push(c));
                assert forall|e: int| 0 <= e <= n implies (reached@[e] <==> rs.union(ends_of(cs.take(t + 1))).contains(e)) by {
                    if ends_of(cs.take(t as int)).contains(e) {
                        let q = choose|q: int| 0 <= q < t && (#[trigger] cs.take(t as int)[q]).end == e;
                        assert(cs.take(t + 1)[q].end == e);
                    }
                    if ends_of(cs.take(t + 1)).contains(e) && e != c.end {
                        let q = choose|q: int| 0 <= q < t + 1 && (#[trigger] cs.take(t + 1)[q]).end == e;
                        assert(cs.take(t as int)[q].end == e);
                    }
                    if e == c.end {
                        assert(cs.take(t + 1)[t as int].end == e);
                    }
                };
            }
            t = t + 1;
        }
        proof {
            assert(cs.take(cs.len() as int) =~= cs);
            assert(ends_within(known@, n as int));
            assert(cands_at(*trie, text, codes@, offsets@, entries@, num_left as int, num_right as int, unks@, i as int) == Some(cs));
            let nxt = cands_from(*trie, text, codes@, offsets@, entries@, num_left as int, num_right as int, unks@, i + 1, rs2);
            assert(from_i == after(cs, nxt));
            match nxt {
                None => {},
                Some(w) => {
                    assert(before + (cs + w) =~= (before + cs) + w);
                },
            }
            rs = rs2;
        }
        i = i + 1;
    }
    proof {
        match whole {
            None => {},
            Some(w) => {
                assert(out@ + Seq::<Candidate>::empty() =~= out@);
            },
        }
    }
    Ok(out)
}

/// A unit written as a metric prefix before another unit reads as the prefix's name followed by
/// that unit's reading: k キロ, M メガ, G ギガ, c センチ, m ミリ, n ナノ, h ヘクト (so cm reads
/// センチメートル and mm ミリメートル).
#[verifier::rlimit(100)]
pub proof fn lemma_prefixed_unit_reading(prefix: char, base: Seq<char>)
    requires
        spec_unit_reading(base) is Some,
        spec_unit_reading_multi(seq![prefix] + base) is Some,
    ensures
        prefix == 'k' ==> spec_unit_reading_multi(seq![prefix] + base)->0 == "キロ"@ + spec_unit_reading(base)->0,
        prefix == 'M' ==> spec_unit_reading_multi(seq![prefix] + base)->0 == "メガ"@ + spec_unit_reading(base)->0,
        prefix == 'G' ==> spec_unit_reading_multi(seq![prefix] + base)->0 == "ギガ"@ + spec_unit_reading(base)->0,
        prefix == 'c' ==> spec_unit_reading_multi(seq![prefix] + base)->0 == "センチ"@ + spec_unit_reading(base)->0,
        prefix == 'm' ==> spec_unit_reading_multi(seq![prefix] + base)->0 == "ミリ"@ + spec_unit_reading(base)->0,
        prefix == 'n' ==> spec_unit_reading_multi(seq![prefix] + base)->0 == "ナノ"@ + spec_unit_reading(base)->0,
        prefix == 'h' ==> spec_unit_reading_multi(seq![prefix] + base)->0 == "ヘクト"@ + spec_unit_reading(base)->0,
{
    reveal_strlit("Hz");
    reveal_strlit("ヘルツ");
    reveal_strlit("kHz");
    reveal_strlit("キロヘルツ");
    reveal_strlit("MHz");
    reveal_strlit("メガヘルツ");
    reveal_strlit("GHz");
    reveal_strlit("ギガヘルツ");
    reveal_strlit("km");
    reveal_strlit("キロメートル");
    reveal_strlit("cm");
    reveal_strlit("センチメートル");
    reveal_strlit("mm");
    reveal_strlit("ミリメートル");
    reveal_strlit("nm");
    reveal_strlit("ナノメートル");
    reveal_strlit("kg");
    reveal_strlit("キログラム");
    reveal_strlit("mg");
    reveal_strlit("ミリグラム");
    reveal_strlit("kW");
    reveal_strlit("キロワット");
    reveal_strlit("MW");
    reveal_strlit("メガワット");
    reveal_strlit("mA");
    reveal_strlit("ミリアンペア");
    reveal_strlit("kV");
    reveal_strlit("キロボルト");
    reveal_strlit("dB");
    reveal_strlit("デシベル");
    reveal_strlit("Pa");
    reveal_strlit("パスカル");
    reveal_strlit("hPa");
    reveal_strlit("ヘクトパスカル");
    reveal_strlit("kPa");
    reveal_strlit("キロパスカル");
    reveal_strlit("MPa");
    reveal_strlit("メガパスカル");
    reveal_strlit("KB");
    reveal_strlit("キロバイト");
    reveal_strlit("MB");
    reveal_strlit("メガバイト");
    reveal_strlit("GB");
    reveal_strlit("ギガバイト");
    reveal_strlit("TB");
    reveal_strlit("テラバイト");
    reveal_strlit("Wh");
    reveal_strlit("ワットアワー");
    reveal_strlit("kWh");
    reveal_strlit("キロワットアワー");
    reveal_strlit("Ah");
    reveal_strlit("アンペアアワー");
    reveal_strlit("mAh");
    reveal_strlit("ミリアンペアアワー");
    reveal_strlit("cc");
    reveal_strlit("シーシー");
    reveal_strlit("hp");
    reveal_strlit("馬力");
    reveal_strlit("rpm");
    reveal_strlit("アールピーエム");
    reveal_strlit("fps");
    reveal_strlit("エフピーエス");
    reveal_strlit("bps");
    reveal_strlit("ビーピーエス");
    reveal_strlit("Mbps");
    reveal_strlit("メガビーピーエス");
    reveal_strlit("Gbps");
    reveal_strlit("ギガビーピーエス");
    reveal_strlit("ワット");
    reveal_strlit("アンペア");
    reveal_strlit("ボルト");
    reveal_strlit("ジュール");
    reveal_strlit("ニュートン");
    reveal_strlit("テスラ");
    reveal_strlit("ファラド");
    reveal_strlit("ヘンリー");
    reveal_strlit("ケルビン");
    reveal_strlit("メートル");
    reveal_strlit("グラム");
    reveal_strlit("トン");
    reveal_strlit("リットル");
    reveal_strlit("キロ");
    reveal_strlit("メガ");
    reveal_strlit("ギガ");
    reveal_strlit("センチ");
    reveal_strlit("ミリ");
    reveal_strlit("ナノ");
    reveal_strlit("ヘクト");
    let u = seq![prefix] + base;
    assert(u[0] == prefix);
    assert(u.drop_first() =~= base);
}

proof fn lemma_char_reports_from(m: Seq<(int, int, u32)>, start: int)
    requires
        forall|i: int| 0 <= i < m.len() ==> 0 <= (#[trigger] m[i]).1,
        0 <= start,
    ensures
        forall|j: int| 0 <= j < char_reports(m, start).len() ==> start <= (#[trigger] char_reports(m, start)[j]).0,
    decreases m.len(),
{
    if m.len() > 0 {
        lemma_char_reports_from(m.drop_last(), start);
        let r = char_reports(m, start);
        let rd = char_reports(m.drop_last(), start);
        assert forall|j: int| 0 <= j < r.len() implies start <= (#[trigger] r[j]).0 by {
            if j < rd.len() {
                assert(r[j] == rd[j]);
            }
        };
    }
}

proof fn lemma_entry_cands_at(entries: Seq<EntryRecord>, nl: int, nr: int, start: int, end: int, g: int, e: int)
    requires
        entry_cands(entries, nl, nr, start, end, g, e) is Some,
    ensures
        forall|t: int|
            0 <= t < entry_cands(entries, nl, nr, start, end, g, e)->0.len() ==> (#[trigger] entry_cands(
                entries,
                nl,
                nr,
                start,
                end,
                g,
                e,
            )->0[t]).start == start as usize && entry_cands(entries, nl, nr, start, end, g, e)->0[t].end == end as usize,
    decreases e - g,
{
    if e > g {
        lemma_entry_cands_at(entries, nl, nr, start, end, g, e - 1);
        let r = entry_cands(entries, nl, nr, start, end, g, e)->0;
        let rd = entry_cands(entries, nl, nr, start, end, g, e - 1)->0;
        assert forall|t: int| 0 <= t < r.len() implies (#[trigger] r[t]).start == start as usize && r[t].end == end as usize by {
            if t < rd.len() {
                assert(r[t] == rd[t]);
            }
        };
    }
}

proof fn lemma_known_cands_at(entries: Seq<EntryRecord>, nl: int, nr: int, start: int, ms: Seq<(usize, u32)>)
    requires
        known_cands(entries, nl, nr, start, ms) is Some,
    ensures
        forall|t: int|
            0 <= t < known_cands(entries, nl, nr, start, ms)->0.len() ==> (#[trigger] known_cands(entries, nl, nr, start, ms)->0[t]).start
                == start as usize && exists|j: int| 0 <= j < ms.len() && known_cands(entries, nl, nr, start, ms)->0[t].end == ms[j].0,
    decreases ms.len(),
{
    if ms.len() > 0 {
        lemma_known_cands_at(entries, nl, nr, start, ms.drop_last());
        let cs = known_cands(entries, nl, nr, start, ms.drop_last())->0;
        let (end, g) = ms.last();
        let e = group_end(entries, g as int)->0;
        lemma_entry_cands_at(entries, nl, nr, start, end as int, g as int, e);
        let more = entry_cands(entries, nl, nr, start, end as int, g as int, e)->0;
        let r = known_cands(entries, nl, nr, start, ms)->0;
        assert(r == cs + more);
        assert forall|t: int| 0 <= t < r.len() implies (#[trigger] r[t]).start == start as usize && exists|j: int|
            0 <= j < ms.len() && r[t].end == ms[j].0 by {
            if t < cs.len() {
                assert(r[t] == cs[t]);
                let j = choose|j: int| 0 <= j < ms.drop_last().len() && cs[t].end == ms.drop_last()[j].0;
                assert(ms[j] == ms.drop_last()[j]);
            } else {
                assert(r[t] == more[t - cs.len()]);
                assert(ms[ms.len() - 1] == ms.last());
            }
        };
    }
}

/// The candidates at a reached position start there, end within the text no earlier, and there
/// is at least one.
proof fn lemma_cands_at(
    trie: Trie,
    text: &str,
    codes: Seq<u16>,
    offsets: Seq<u32>,
    entries: Seq<EntryRecord>,
    nl: int,
    nr: int,
    unks: Seq<UnkAt>,
    i: int,
)
    requires
        0 <= i < codes.len(),
        codes.len() <= usize::MAX,
        unks.len() == codes.len(),
        forall|p: int, t: int|
            0 <= p < unks.len() && 0 <= t < unks[p].lens@.len() ==> 1 <= #[trigger] unks[p].lens@[t] && p + unks[p].lens@[t]
                <= codes.len(),
        cands_at(trie, text, codes, offsets, entries, nl, nr, unks, i) is Some,
    ensures
        ({
            let cs = cands_at(trie, text, codes, offsets, entries, nl, nr, unks, i)->0;
            &&& cs.len() > 0
            &&& forall|t: int| 0 <= t < cs.len() ==> (#[trigger] cs[t]).start == i && i <= cs[t].end <= codes.len()
        }),
{
    let sr = trie.spec_codes_search(text, codes, offsets, i);
    let ms = char_reports(sr.0, i);
    let k = known_cands(entries, nl, nr, i, ms)->0;
    let u = unk_cands(unks[i], i, k.len() > 0);
    let cs = k + u;
    if i < offsets.len() {
        trie.lemma_codes_depths(text, codes, offsets, i);
        lemma_char_reports_from(sr.0, i);
    } else {
        assert(sr.0.len() == 0);
        assert(ms.len() == 0);
    }
    lemma_known_cands_at(entries, nl, nr, i, ms);
    assert forall|t: int| 0 <= t < cs.len() implies (#[trigger] cs[t]).start == i && i <= cs[t].end <= codes.len() by {
        if t < k.len() {
            assert(cs[t] == k[t]);
            let j = choose|j: int| 0 <= j < ms.len() && k[t].end == ms[j].0;
            assert(k[t].end <= codes.len());
        } else {
            assert(cs[t] == u[t - k.len()]);
            if t - k.len() < unks[i].lens@.len() {
                assert(1 <= unks[i].lens@[t - k.len()]);
            }
        }
    };
}

/// From position `i` on, with `reached` the positions reached so far: candidates start at `i` or
/// later and end within the text no earlier than they start; every reached position from `i` on
/// gets a candidate that starts there; and every candidate that ends inside the text is followed
/// by one that starts where it ends.
proof fn lemma_cands_from(
    trie: Trie,
    text: &str,
    codes: Seq<u16>,
    offsets: Seq<u32>,
    entries: Seq<EntryRecord>,
    nl: int,
    nr: int,
    unks: Seq<UnkAt>,
    i: int,
    reached: Set<int>,
)
    requires
        0 <= i,
        codes.len() <= usize::MAX,
        unks.len() == codes.len(),
        forall|p: int, t: int|
            0 <= p < unks.len() && 0 <= t < unks[p].lens@.len() ==> 1 <= #[trigger] unks[p].lens@[t] && p + unks[p].lens@[t]
                <= codes.len(),
        cands_from(trie, text, codes, offsets, entries, nl, nr, unks, i, reached) is Some,
    ensures
        ({
            let out = cands_from(trie, text, codes, offsets, entries, nl, nr, unks, i, reached)->0;
            &&& forall|t: int| 0 <= t < out.len() ==> i <= (#[trigger] out[t]).start <= out[t].end <= codes.len()
            &&& forall|e: int|
                i <= e < codes.len() && reached.contains(e) ==> exists|u: int| 0 <= u < out.len() && #[trigger] out[u].start == e
            &&& forall|t: int|
                0 <= t < out.len() && (#[trigger] out[t]).end < codes.len() ==> exists|u: int| 0 <= u < out.len() && out[u].start
                    == out[t].end
        }),
    decreases codes.len() - i,
{
    if i >= codes.len() {
    } else if !reached.contains(i) {
        lemma_cands_from(trie, text, codes, offsets, entries, nl, nr, unks, i + 1, reached);
    } else {
        let cs = cands_at(trie, text, codes, offsets, entries, nl, nr, unks, i)->0;
        let r2 = reached.union(Set::new(|e: int| exists|t: int| 0 <= t < cs.len() && cs[t].end == e));
        lemma_cands_at(trie, text, codes, offsets, entries, nl, nr, unks, i);
        lemma_cands_from(trie, text, codes, offsets, entries, nl, nr, unks, i + 1, r2);
        let rest = cands_from(trie, text, codes, offsets, entries, nl, nr, unks, i + 1, r2)->0;
        let out = cands_from(trie, text, codes, offsets, entries, nl, nr, unks, i, reached)->0;
        assert(out == cs + rest);
        assert forall|t: int| 0 <= t < out.len() implies i <= (#[trigger] out[t]).start <= out[t].end <= codes.len() by {
            if t < cs.len() {
                assert(out[t] == cs[t]);
            } else {
                assert(out[t] == rest[t - cs.len()]);
            }
        };
        assert forall|e: int| i <= e < codes.len() && reached.contains(e) implies exists|u: int| 0 <= u < out.len() && #[trigger] out[u].start
            == e by {
            if e == i {
                assert(out[0] == cs[0]);
            } else {
                assert(r2.contains(e));
                let u = choose|u: int| 0 <= u < rest.len() && #[trigger] rest[u].start == e;
                assert(out[u + cs.len()] == rest[u]);
            }
        };
        assert forall|t: int| 0 <= t < out.len() && (#[trigger] out[t]).end < codes.len() implies exists|u: int| 0 <= u < out.len()
            && out[u].start == out[t].end by {
            if t < cs.len() {
                assert(out[t] == cs[t]);
                let e = cs[t].end as int;
                if e == i {
                    assert(out[0] == cs[0]);
                } else {
                    assert(r2.contains(e));
                    let u = choose|u: int| 0 <= u < rest.len() && #[trigger] rest[u].start == e;
                    assert(out[u + cs.len()] == rest[u]);
                }
            } else {
                assert(out[t] == rest[t - cs.len()]);
                let u = choose|u: int| 0 <= u < rest.len() && rest[u].start == rest[t - cs.len()].end;
                assert(out[u + cs.len()] == rest[u]);
            }
        };
    }
}

/// The lattice never strands a word: every candidate that ends inside the text, known or unknown,
/// is followed by a candidate that starts where it ends, and a candidate starts at the beginning
/// of any text that is not empty.
pub proof fn lemma_lattice_continues(
    trie: Trie,
    text: &str,
    codes: Seq<u16>,
    offsets: Seq<u32>,
    entries: Seq<EntryRecord>,
    nl: int,
    nr: int,
    unks: Seq<UnkAt>,
)
    requires
        codes.len() <= usize::MAX,
        unks.len() == codes.len(),
        forall|p: int, t: int|
            0 <= p < unks.len() && 0 <= t < unks[p].lens@.len() ==> 1 <= #[trigger] unks[p].lens@[t] && p + unks[p].lens@[t]
                <= codes.len(),
        cands_from(trie, text, codes, offsets, entries, nl, nr, unks, 0, set![0]) is Some,
    ensures
        ({
            let out = cands_from(trie, text, codes, offsets, entries, nl, nr, unks, 0, set![0])->0;
            &&& forall|t: int|
                0 <= t < out.len() && (#[trigger] out[t]).end < codes.len() ==> exists|u: int| 0 <= u < out.len() && out[u].start
                    == out[t].end
            &&& codes.len() > 0 ==> exists|u: int| 0 <= u < out.len() && out[u].start == 0
        }),
{
    lemma_cands_from(trie, text, codes, offsets, entries, nl, nr, unks, 0, set![0]);
    if codes.len() > 0 {
        assert(set![0int].contains(0));
    }
}


proof fn lemma_unit_reading_literals_differ()
    ensures
        "ヘルツ"@ != "キロヘルツ"@,
        "ヘルツ"@ != "メガヘルツ"@,
        "ヘルツ"@ != "ギガヘルツ"@,
        "ヘルツ"@ != "キロメートル"@,
        "ヘルツ"@ != "センチメートル"@,
        "ヘルツ"@ != "ミリメートル"@,
        "ヘルツ"@ != "ナノメートル"@,
        "ヘルツ"@ != "キログラム"@,
        "ヘルツ"@ != "ミリグラム"@,
        "ヘルツ"@ != "キロワット"@,
        "ヘルツ"@ != "メガワット"@,
        "ヘルツ"@ != "ミリアンペア"@,
        "ヘルツ"@ != "キロボルト"@,
        "ヘルツ"@ != "デシベル"@,
        "ヘルツ"@ != "パスカル"@,
        "ヘルツ"@ != "ヘクトパスカル"@,
        "ヘルツ"@ != "キロパスカル"@,
        "ヘルツ"@ != "メガパスカル"@,
        "ヘルツ"@ != "キロバイト"@,
        "ヘルツ"@ != "メガバイト"@,
        "ヘルツ"@ != "ギガバイト"@,
        "ヘルツ"@ != "テラバイト"@,
        "ヘルツ"@ != "ワットアワー"@,
        "ヘルツ"@ != "キロワットアワー"@,
        "ヘルツ"@ != "アンペアアワー"@,
        "ヘルツ"@ != "ミリアンペアアワー"@,
        "ヘルツ"@ != "シーシー"@,
        "ヘルツ"@ != "馬力"@,
        "ヘルツ"@ != "アールピーエム"@,
        "ヘルツ"@ != "エフピーエス"@,
        "ヘルツ"@ != "ビーピーエス"@,
        "ヘルツ"@ != "メガビーピーエス"@,
        "ヘルツ"@ != "ギガビーピーエス"@,
        "キロヘルツ"@ != "メガヘルツ"@,
        "キロヘルツ"@ != "ギガヘルツ"@,
        "キロヘルツ"@ != "キロメートル"@,
        "キロヘルツ"@ != "センチメートル"@,
        "キロヘルツ"@ != "ミリメートル"@,
        "キロヘルツ"@ != "ナノメートル"@,
        "キロヘルツ"@ != "キログラム"@,
        "キロヘルツ"@ != "ミリグラム"@,
        "キロヘルツ"@ != "キロワット"@,
        "キロヘルツ"@ != "メガワット"@,
        "キロヘルツ"@ != "ミリアンペア"@,
        "キロヘルツ"@ != "キロボルト"@,
        "キロヘルツ"@ != "デシベル"@,
        "キロヘルツ"@ != "パスカル"@,
        "キロヘルツ"@ != "ヘクトパスカル"@,
        "キロヘルツ"@ != "キロパスカル"@,
        "キロヘルツ"@ != "メガパスカル"@,
        "キロヘルツ"@ != "キロバイト"@,
        "キロヘルツ"@ != "メガバイト"@,
        "キロヘルツ"@ != "ギガバイト"@,
        "キロヘルツ"@ != "テラバイト"@,
        "キロヘルツ"@ != "ワットアワー"@,
        "キロヘルツ"@ != "キロワットアワー"@,
        "キロヘルツ"@ != "アンペアアワー"@,
        "キロヘルツ"@ != "ミリアンペアアワー"@,
        "キロヘルツ"@ != "シーシー"@,
        "キロヘルツ"@ != "馬力"@,
        "キロヘルツ"@ != "アールピーエム"@,
        "キロヘルツ"@ != "エフピーエス"@,
        "キロヘルツ"@ != "ビーピーエス"@,
        "キロヘルツ"@ != "メガビーピーエス"@,
        "キロヘルツ"@ != "ギガビーピーエス"@,
        "メガヘルツ"@ != "ギガヘルツ"@,
        "メガヘルツ"@ != "キロメートル"@,
        "メガヘルツ"@ != "センチメートル"@,
        "メガヘルツ"@ != "ミリメートル"@,
        "メガヘルツ"@ != "ナノメートル"@,
        "メガヘルツ"@ != "キログラム"@,
        "メガヘルツ"@ != "ミリグラム"@,
        "メガヘルツ"@ != "キロワット"@,
        "メガヘルツ"@ != "メガワット"@,
        "メガヘルツ"@ != "ミリアンペア"@,
        "メガヘルツ"@ != "キロボルト"@,
        "メガヘルツ"@ != "デシベル"@,
        "メガヘルツ"@ != "パスカル"@,
        "メガヘルツ"@ != "ヘクトパスカル"@,
        "メガヘルツ"@ != "キロパスカル"@,
        "メガヘルツ"@ != "メガパスカル"@,
        "メガヘルツ"@ != "キロバイト"@,
        "メガヘルツ"@ != "メガバイト"@,
        "メガヘルツ"@ != "ギガバイト"@,
        "メガヘルツ"@ != "テラバイト"@,
        "メガヘルツ"@ != "ワットアワー"@,
        "メガヘルツ"@ != "キロワットアワー"@,
        "メガヘルツ"@ != "アンペアアワー"@,
        "メガヘルツ"@ != "ミリアンペアアワー"@,
        "メガヘルツ"@ != "シーシー"@,
        "メガヘルツ"@ != "馬力"@,
        "メガヘルツ"@ != "アールピーエム"@,
        "メガヘルツ"@ != "エフピーエス"@,
        "メガヘルツ"@ != "ビーピーエス"@,
        "メガヘルツ"@ != "メガビーピーエス"@,
        "メガヘルツ"@ != "ギガビーピーエス"@,
        "ギガヘルツ"@ != "キロメートル"@,
        "ギガヘルツ"@ != "センチメートル"@,
        "ギガヘルツ"@ != "ミリメートル"@,
        "ギガヘルツ"@ != "ナノメートル"@,
        "ギガヘルツ"@ != "キログラム"@,
        "ギガヘルツ"@ != "ミリグラム"@,
        "ギガヘルツ"@ != "キロワット"@,
        "ギガヘルツ"@ != "メガワット"@,
        "ギガヘルツ"@ != "ミリアンペア"@,
        "ギガヘルツ"@ != "キロボルト"@,
        "ギガヘルツ"@ != "デシベル"@,
        "ギガヘルツ"@ != "パスカル"@,
        "ギガヘルツ"@ != "ヘクトパスカル"@,
        "ギガヘルツ"@ != "キロパスカル"@,
        "ギガヘルツ"@ != "メガパスカル"@,
        "ギガヘルツ"@ != "キロバイト"@,
        "ギガヘルツ"@ != "メガバイト"@,
        "ギガヘルツ"@ != "ギガバイト"@,
        "ギガヘルツ"@ != "テラバイト"@,
        "ギガヘルツ"@ != "ワットアワー"@,
        "ギガヘルツ"@ != "キロワットアワー"@,
        "ギガヘルツ"@ != "アンペアアワー"@,
        "ギガヘルツ"@ != "ミリアンペアアワー"@,
        "ギガヘルツ"@ != "シーシー"@,
        "ギガヘルツ"@ != "馬力"@,
        "ギガヘルツ"@ != "アールピーエム"@,
        "ギガヘルツ"@ != "エフピーエス"@,
        "ギガヘルツ"@ != "ビーピーエス"@,
        "ギガヘルツ"@ != "メガビーピーエス"@,
        "ギガヘルツ"@ != "ギガビーピーエス"@,
        "キロメートル"@ != "センチメートル"@,
        "キロメートル"@ != "ミリメートル"@,
        "キロメートル"@ != "ナノメートル"@,
        "キロメートル"@ != "キログラム"@,
        "キロメートル"@ != "ミリグラム"@,
        "キロメートル"@ != "キロワット"@,
        "キロメートル"@ != "メガワット"@,
        "キロメートル"@ != "ミリアンペア"@,
        "キロメートル"@ != "キロボルト"@,
        "キロメートル"@ != "デシベル"@,
        "キロメートル"@ != "パスカル"@,
        "キロメートル"@ != "ヘクトパスカル"@,
        "キロメートル"@ != "キロパスカル"@,
        "キロメートル"@ != "メガパスカル"@,
        "キロメートル"@ != "キロバイト"@,
        "キロメートル"@ != "メガバイト"@,
        "キロメートル"@ != "ギガバイト"@,
        "キロメートル"@ != "テラバイト"@,
        "キロメートル"@ != "ワットアワー"@,
        "キロメートル"@ != "キロワットアワー"@,
        "キロメートル"@ != "アンペアアワー"@,
        "キロメートル"@ != "ミリアンペアアワー"@,
        "キロメートル"@ != "シーシー"@,
        "キロメートル"@ != "馬力"@,
        "キロメートル"@ != "アールピーエム"@,
        "キロメートル"@ != "エフピーエス"@,
        "キロメートル"@ != "ビーピーエス"@,
        "キロメートル"@ != "メガビーピーエス"@,
        "キロメートル"@ != "ギガビーピーエス"@,
        "センチメートル"@ != "ミリメートル"@,
        "センチメートル"@ != "ナノメートル"@,
        "センチメートル"@ != "キログラム"@,
        "センチメートル"@ != "ミリグラム"@,
        "センチメートル"@ != "キロワット"@,
        "センチメートル"@ != "メガワット"@,
        "センチメートル"@ != "ミリアンペア"@,
        "センチメートル"@ != "キロボルト"@,
        "センチメートル"@ != "デシベル"@,
        "センチメートル"@ != "パスカル"@,
        "センチメートル"@ != "ヘクトパスカル"@,
        "センチメートル"@ != "キロパスカル"@,
        "センチメートル"@ != "メガパスカル"@,
        "センチメートル"@ != "キロバイト"@,
        "センチメートル"@ != "メガバイト"@,
        "センチメートル"@ != "ギガバイト"@,
        "センチメートル"@ != "テラバイト"@,
        "センチメートル"@ != "ワットアワー"@,
        "センチメートル"@ != "キロワットアワー"@,
        "センチメートル"@ != "アンペアアワー"@,
        "センチメートル"@ != "ミリアンペアアワー"@,
        "センチメートル"@ != "シーシー"@,
        "センチメートル"@ != "馬力"@,
        "センチメートル"@ != "アールピーエム"@,
        "センチメートル"@ != "エフピーエス"@,
        "センチメートル"@ != "ビーピーエス"@,
        "センチメートル"@ != "メガビーピーエス"@,
        "センチメートル"@ != "ギガビーピーエス"@,
        "ミリメートル"@ != "ナノメートル"@,
        "ミリメートル"@ != "キログラム"@,
        "ミリメートル"@ != "ミリグラム"@,
        "ミリメートル"@ != "キロワット"@,
        "ミリメートル"@ != "メガワット"@,
        "ミリメートル"@ != "ミリアンペア"@,
        "ミリメートル"@ != "キロボルト"@,
        "ミリメートル"@ != "デシベル"@,
        "ミリメートル"@ != "パスカル"@,
        "ミリメートル"@ != "ヘクトパスカル"@,
        "ミリメートル"@ != "キロパスカル"@,
        "ミリメートル"@ != "メガパスカル"@,
        "ミリメートル"@ != "キロバイト"@,
        "ミリメートル"@ != "メガバイト"@,
        "ミリメートル"@ != "ギガバイト"@,
        "ミリメートル"@ != "テラバイト"@,
        "ミリメートル"@ != "ワットアワー"@,
        "ミリメートル"@ != "キロワットアワー"@,
        "ミリメートル"@ != "アンペアアワー"@,
        "ミリメートル"@ != "ミリアンペアアワー"@,
        "ミリメートル"@ != "シーシー"@,
        "ミリメートル"@ != "馬力"@,
        "ミリメートル"@ != "アールピーエム"@,
        "ミリメートル"@ != "エフピーエス"@,
        "ミリメートル"@ != "ビーピーエス"@,
        "ミリメートル"@ != "メガビーピーエス"@,
        "ミリメートル"@ != "ギガビーピーエス"@,
        "ナノメートル"@ != "キログラム"@,
        "ナノメートル"@ != "ミリグラム"@,
        "ナノメートル"@ != "キロワット"@,
        "ナノメートル"@ != "メガワット"@,
        "ナノメートル"@ != "ミリアンペア"@,
        "ナノメートル"@ != "キロボルト"@,
        "ナノメートル"@ != "デシベル"@,
        "ナノメートル"@ != "パスカル"@,
        "ナノメートル"@ != "ヘクトパスカル"@,
        "ナノメートル"@ != "キロパスカル"@,
        "ナノメートル"@ != "メガパスカル"@,
        "ナノメートル"@ != "キロバイト"@,
        "ナノメートル"@ != "メガバイト"@,
        "ナノメートル"@ != "ギガバイト"@,
        "ナノメートル"@ != "テラバイト"@,
        "ナノメートル"@ != "ワットアワー"@,
        "ナノメートル"@ != "キロワットアワー"@,
        "ナノメートル"@ != "アンペアアワー"@,
        "ナノメートル"@ != "ミリアンペアアワー"@,
        "ナノメートル"@ != "シーシー"@,
        "ナノメートル"@ != "馬力"@,
        "ナノメートル"@ != "アールピーエム"@,
        "ナノメートル"@ != "エフピーエス"@,
        "ナノメートル"@ != "ビーピーエス"@,
        "ナノメートル"@ != "メガビーピーエス"@,
        "ナノメートル"@ != "ギガビーピーエス"@,
        "キログラム"@ != "ミリグラム"@,
        "キログラム"@ != "キロワット"@,
        "キログラム"@ != "メガワット"@,
        "キログラム"@ != "ミリアンペア"@,
        "キログラム"@ != "キロボルト"@,
        "キログラム"@ != "デシベル"@,
        "キログラム"@ != "パスカル"@,
        "キログラム"@ != "ヘクトパスカル"@,
        "キログラム"@ != "キロパスカル"@,
        "キログラム"@ != "メガパスカル"@,
        "キログラム"@ != "キロバイト"@,
        "キログラム"@ != "メガバイト"@,
        "キログラム"@ != "ギガバイト"@,
        "キログラム"@ != "テラバイト"@,
        "キログラム"@ != "ワットアワー"@,
        "キログラム"@ != "キロワットアワー"@,
        "キログラム"@ != "アンペアアワー"@,
        "キログラム"@ != "ミリアンペアアワー"@,
        "キログラム"@ != "シーシー"@,
        "キログラム"@ != "馬力"@,
        "キログラム"@ != "アールピーエム"@,
        "キログラム"@ != "エフピーエス"@,
        "キログラム"@ != "ビーピーエス"@,
        "キログラム"@ != "メガビーピーエス"@,
        "キログラム"@ != "ギガビーピーエス"@,
        "ミリグラム"@ != "キロワット"@,
        "ミリグラム"@ != "メガワット"@,
        "ミリグラム"@ != "ミリアンペア"@,
        "ミリグラム"@ != "キロボルト"@,
        "ミリグラム"@ != "デシベル"@,
        "ミリグラム"@ != "パスカル"@,
        "ミリグラム"@ != "ヘクトパスカル"@,
        "ミリグラム"@ != "キロパスカル"@,
        "ミリグラム"@ != "メガパスカル"@,
        "ミリグラム"@ != "キロバイト"@,
        "ミリグラム"@ != "メガバイト"@,
        "ミリグラム"@ != "ギガバイト"@,
        "ミリグラム"@ != "テラバイト"@,
        "ミリグラム"@ != "ワットアワー"@,
        "ミリグラム"@ != "キロワットアワー"@,
        "ミリグラム"@ != "アンペアアワー"@,
        "ミリグラム"@ != "ミリアンペアアワー"@,
        "ミリグラム"@ != "シーシー"@,
        "ミリグラム"@ != "馬力"@,
        "ミリグラム"@ != "アールピーエム"@,
        "ミリグラム"@ != "エフピーエス"@,
        "ミリグラム"@ != "ビーピーエス"@,
        "ミリグラム"@ != "メガビーピーエス"@,
        "ミリグラム"@ != "ギガビーピーエス"@,
        "キロワット"@ != "メガワット"@,
        "キロワット"@ != "ミリアンペア"@,
        "キロワット"@ != "キロボルト"@,
        "キロワット"@ != "デシベル"@,
        "キロワット"@ != "パスカル"@,
        "キロワット"@ != "ヘクトパスカル"@,
        "キロワット"@ != "キロパスカル"@,
        "キロワット"@ != "メガパスカル"@,
        "キロワット"@ != "キロバイト"@,
        "キロワット"@ != "メガバイト"@,
        "キロワット"@ != "ギガバイト"@,
        "キロワット"@ != "テラバイト"@,
        "キロワット"@ != "ワットアワー"@,
        "キロワット"@ != "キロワットアワー"@,
        "キロワット"@ != "アンペアアワー"@,
        "キロワット"@ != "ミリアンペアアワー"@,
        "キロワット"@ != "シーシー"@,
        "キロワット"@ != "馬力"@,
        "キロワット"@ != "アールピーエム"@,
        "キロワット"@ != "エフピーエス"@,
        "キロワット"@ != "ビーピーエス"@,
        "キロワット"@ != "メガビーピーエス"@,
        "キロワット"@ != "ギガビーピーエス"@,
        "メガワット"@ != "ミリアンペア"@,
        "メガワット"@ != "キロボルト"@,
        "メガワット"@ != "デシベル"@,
        "メガワット"@ != "パスカル"@,
        "メガワット"@ != "ヘクトパスカル"@,
        "メガワット"@ != "キロパスカル"@,
        "メガワット"@ != "メガパスカル"@,
        "メガワット"@ != "キロバイト"@,
        "メガワット"@ != "メガバイト"@,
        "メガワット"@ != "ギガバイト"@,
        "メガワット"@ != "テラバイト"@,
        "メガワット"@ != "ワットアワー"@,
        "メガワット"@ != "キロワットアワー"@,
        "メガワット"@ != "アンペアアワー"@,
        "メガワット"@ != "ミリアンペアアワー"@,
        "メガワット"@ != "シーシー"@,
        "メガワット"@ != "馬力"@,
        "メガワット"@ != "アールピーエム"@,
        "メガワット"@ != "エフピーエス"@,
        "メガワット"@ != "ビーピーエス"@,
        "メガワット"@ != "メガビーピーエス"@,
        "メガワット"@ != "ギガビーピーエス"@,
        "ミリアンペア"@ != "キロボルト"@,
        "ミリアンペア"@ != "デシベル"@,
        "ミリアンペア"@ != "パスカル"@,
        "ミリアンペア"@ != "ヘクトパスカル"@,
        "ミリアンペア"@ != "キロパスカル"@,
        "ミリアンペア"@ != "メガパスカル"@,
        "ミリアンペア"@ != "キロバイト"@,
        "ミリアンペア"@ != "メガバイト"@,
        "ミリアンペア"@ != "ギガバイト"@,
        "ミリアンペア"@ != "テラバイト"@,
        "ミリアンペア"@ != "ワットアワー"@,
        "ミリアンペア"@ != "キロワットアワー"@,
        "ミリアンペア"@ != "アンペアアワー"@,
        "ミリアンペア"@ != "ミリアンペアアワー"@,
        "ミリアンペア"@ != "シーシー"@,
        "ミリアンペア"@ != "馬力"@,
        "ミリアンペア"@ != "アールピーエム"@,
        "ミリアンペア"@ != "エフピーエス"@,
        "ミリアンペア"@ != "ビーピーエス"@,
        "ミリアンペア"@ != "メガビーピーエス"@,
        "ミリアンペア"@ != "ギガビーピーエス"@,
        "キロボルト"@ != "デシベル"@,
        "キロボルト"@ != "パスカル"@,
        "キロボルト"@ != "ヘクトパスカル"@,
        "キロボルト"@ != "キロパスカル"@,
        "キロボルト"@ != "メガパスカル"@,
        "キロボルト"@ != "キロバイト"@,
        "キロボルト"@ != "メガバイト"@,
        "キロボルト"@ != "ギガバイト"@,
        "キロボルト"@ != "テラバイト"@,
        "キロボルト"@ != "ワットアワー"@,
        "キロボルト"@ != "キロワットアワー"@,
        "キロボルト"@ != "アンペアアワー"@,
        "キロボルト"@ != "ミリアンペアアワー"@,
        "キロボルト"@ != "シーシー"@,
        "キロボルト"@ != "馬力"@,
        "キロボルト"@ != "アールピーエム"@,
        "キロボルト"@ != "エフピーエス"@,
        "キロボルト"@ != "ビーピーエス"@,
        "キロボルト"@ != "メガビーピーエス"@,
        "キロボルト"@ != "ギガビーピーエス"@,
        "デシベル"@ != "パスカル"@,
        "デシベル"@ != "ヘクトパスカル"@,
        "デシベル"@ != "キロパスカル"@,
        "デシベル"@ != "メガパスカル"@,
        "デシベル"@ != "キロバイト"@,
        "デシベル"@ != "メガバイト"@,
        "デシベル"@ != "ギガバイト"@,
        "デシベル"@ != "テラバイト"@,
        "デシベル"@ != "ワットアワー"@,
        "デシベル"@ != "キロワットアワー"@,
        "デシベル"@ != "アンペアアワー"@,
        "デシベル"@ != "ミリアンペアアワー"@,
        "デシベル"@ != "シーシー"@,
        "デシベル"@ != "馬力"@,
        "デシベル"@ != "アールピーエム"@,
        "デシベル"@ != "エフピーエス"@,
        "デシベル"@ != "ビーピーエス"@,
        "デシベル"@ != "メガビーピーエス"@,
        "デシベル"@ != "ギガビーピーエス"@,
        "パスカル"@ != "ヘクトパスカル"@,
        "パスカル"@ != "キロパスカル"@,
        "パスカル"@ != "メガパスカル"@,
        "パスカル"@ != "キロバイト"@,
        "パスカル"@ != "メガバイト"@,
        "パスカル"@ != "ギガバイト"@,
        "パスカル"@ != "テラバイト"@,
        "パスカル"@ != "ワットアワー"@,
        "パスカル"@ != "キロワットアワー"@,
        "パスカル"@ != "アンペアアワー"@,
        "パスカル"@ != "ミリアンペアアワー"@,
        "パスカル"@ != "シーシー"@,
        "パスカル"@ != "馬力"@,
        "パスカル"@ != "アールピーエム"@,
        "パスカル"@ != "エフピーエス"@,
        "パスカル"@ != "ビーピーエス"@,
        "パスカル"@ != "メガビーピーエス"@,
        "パスカル"@ != "ギガビーピーエス"@,
        "ヘクトパスカル"@ != "キロパスカル"@,
        "ヘクトパスカル"@ != "メガパスカル"@,
        "ヘクトパスカル"@ != "キロバイト"@,
        "ヘクトパスカル"@ != "メガバイト"@,
        "ヘクトパスカル"@ != "ギガバイト"@,
        "ヘクトパスカル"@ != "テラバイト"@,
        "ヘクトパスカル"@ != "ワットアワー"@,
        "ヘクトパスカル"@ != "キロワットアワー"@,
        "ヘクトパスカル"@ != "アンペアアワー"@,
        "ヘクトパスカル"@ != "ミリアンペアアワー"@,
        "ヘクトパスカル"@ != "シーシー"@,
        "ヘクトパスカル"@ != "馬力"@,
        "ヘクトパスカル"@ != "アールピーエム"@,
        "ヘクトパスカル"@ != "エフピーエス"@,
        "ヘクトパスカル"@ != "ビーピーエス"@,
        "ヘクトパスカル"@ != "メガビーピーエス"@,
        "ヘクトパスカル"@ != "ギガビーピーエス"@,
        "キロパスカル"@ != "メガパスカル"@,
        "キロパスカル"@ != "キロバイト"@,
        "キロパスカル"@ != "メガバイト"@,
        "キロパスカル"@ != "ギガバイト"@,
        "キロパスカル"@ != "テラバイト"@,
        "キロパスカル"@ != "ワットアワー"@,
        "キロパスカル"@ != "キロワットアワー"@,
        "キロパスカル"@ != "アンペアアワー"@,
        "キロパスカル"@ != "ミリアンペアアワー"@,
        "キロパスカル"@ != "シーシー"@,
        "キロパスカル"@ != "馬力"@,
        "キロパスカル"@ != "アールピーエム"@,
        "キロパスカル"@ != "エフピーエス"@,
        "キロパスカル"@ != "ビーピーエス"@,
        "キロパスカル"@ != "メガビーピーエス"@,
        "キロパスカル"@ != "ギガビーピーエス"@,
        "メガパスカル"@ != "キロバイト"@,
        "メガパスカル"@ != "メガバイト"@,
        "メガパスカル"@ != "ギガバイト"@,
        "メガパスカル"@ != "テラバイト"@,
        "メガパスカル"@ != "ワットアワー"@,
        "メガパスカル"@ != "キロワットアワー"@,
        "メガパスカル"@ != "アンペアアワー"@,
        "メガパスカル"@ != "ミリアンペアアワー"@,
        "メガパスカル"@ != "シーシー"@,
        "メガパスカル"@ != "馬力"@,
        "メガパスカル"@ != "アールピーエム"@,
        "メガパスカル"@ != "エフピーエス"@,
        "メガパスカル"@ != "ビーピーエス"@,
        "メガパスカル"@ != "メガビーピーエス"@,
        "メガパスカル"@ != "ギガビーピーエス"@,
        "キロバイト"@ != "メガバイト"@,
        "キロバイト"@ != "ギガバイト"@,
        "キロバイト"@ != "テラバイト"@,
        "キロバイト"@ != "ワットアワー"@,
        "キロバイト"@ != "キロワットアワー"@,
        "キロバイト"@ != "アンペアアワー"@,
        "キロバイト"@ != "ミリアンペアアワー"@,
        "キロバイト"@ != "シーシー"@,
        "キロバイト"@ != "馬力"@,
        "キロバイト"@ != "アールピーエム"@,
        "キロバイト"@ != "エフピーエス"@,
        "キロバイト"@ != "ビーピーエス"@,
        "キロバイト"@ != "メガビーピーエス"@,
        "キロバイト"@ != "ギガビーピーエス"@,
        "メガバイト"@ != "ギガバイト"@,
        "メガバイト"@ != "テラバイト"@,
        "メガバイト"@ != "ワットアワー"@,
        "メガバイト"@ != "キロワットアワー"@,
        "メガバイト"@ != "アンペアアワー"@,
        "メガバイト"@ != "ミリアンペアアワー"@,
        "メガバイト"@ != "シーシー"@,
        "メガバイト"@ != "馬力"@,
        "メガバイト"@ != "アールピーエム"@,
        "メガバイト"@ != "エフピーエス"@,
        "メガバイト"@ != "ビーピーエス"@,
        "メガバイト"@ != "メガビーピーエス"@,
        "メガバイト"@ != "ギガビーピーエス"@,
        "ギガバイト"@ != "テラバイト"@,
        "ギガバイト"@ != "ワットアワー"@,
        "ギガバイト"@ != "キロワットアワー"@,
        "ギガバイト"@ != "アンペアアワー"@,
        "ギガバイト"@ != "ミリアンペアアワー"@,
        "ギガバイト"@ != "シーシー"@,
        "ギガバイト"@ != "馬力"@,
        "ギガバイト"@ != "アールピーエム"@,
        "ギガバイト"@ != "エフピーエス"@,
        "ギガバイト"@ != "ビーピーエス"@,
        "ギガバイト"@ != "メガビーピーエス"@,
        "ギガバイト"@ != "ギガビーピーエス"@,
        "テラバイト"@ != "ワットアワー"@,
        "テラバイト"@ != "キロワットアワー"@,
        "テラバイト"@ != "アンペアアワー"@,
        "テラバイト"@ != "ミリアンペアアワー"@,
        "テラバイト"@ != "シーシー"@,
        "テラバイト"@ != "馬力"@,
        "テラバイト"@ != "アールピーエム"@,
        "テラバイト"@ != "エフピーエス"@,
        "テラバイト"@ != "ビーピーエス"@,
        "テラバイト"@ != "メガビーピーエス"@,
        "テラバイト"@ != "ギガビーピーエス"@,
        "ワットアワー"@ != "キロワットアワー"@,
        "ワットアワー"@ != "アンペアアワー"@,
        "ワットアワー"@ != "ミリアンペアアワー"@,
        "ワットアワー"@ != "シーシー"@,
        "ワットアワー"@ != "馬力"@,
        "ワットアワー"@ != "アールピーエム"@,
        "ワットアワー"@ != "エフピーエス"@,
        "ワットアワー"@ != "ビーピーエス"@,
        "ワットアワー"@ != "メガビーピーエス"@,
        "ワットアワー"@ != "ギガビーピーエス"@,
        "キロワットアワー"@ != "アンペアアワー"@,
        "キロワットアワー"@ != "ミリアンペアアワー"@,
        "キロワットアワー"@ != "シーシー"@,
        "キロワットアワー"@ != "馬力"@,
        "キロワットアワー"@ != "アールピーエム"@,
        "キロワットアワー"@ != "エフピーエス"@,
        "キロワットアワー"@ != "ビーピーエス"@,
        "キロワットアワー"@ != "メガビーピーエス"@,
        "キロワットアワー"@ != "ギガビーピーエス"@,
        "アンペアアワー"@ != "ミリアンペアアワー"@,
        "アンペアアワー"@ != "シーシー"@,
        "アンペアアワー"@ != "馬力"@,
        "アンペアアワー"@ != "アールピーエム"@,
        "アンペアアワー"@ != "エフピーエス"@,
        "アンペアアワー"@ != "ビーピーエス"@,
        "アンペアアワー"@ != "メガビーピーエス"@,
        "アンペアアワー"@ != "ギガビーピーエス"@,
        "ミリアンペアアワー"@ != "シーシー"@,
        "ミリアンペアアワー"@ != "馬力"@,
        "ミリアンペアアワー"@ != "アールピーエム"@,
        "ミリアンペアアワー"@ != "エフピーエス"@,
        "ミリアンペアアワー"@ != "ビーピーエス"@,
        "ミリアンペアアワー"@ != "メガビーピーエス"@,
        "ミリアンペアアワー"@ != "ギガビーピーエス"@,
        "シーシー"@ != "馬力"@,
        "シーシー"@ != "アールピーエム"@,
        "シーシー"@ != "エフピーエス"@,
        "シーシー"@ != "ビーピーエス"@,
        "シーシー"@ != "メガビーピーエス"@,
        "シーシー"@ != "ギガビーピーエス"@,
        "馬力"@ != "アールピーエム"@,
        "馬力"@ != "エフピーエス"@,
        "馬力"@ != "ビーピーエス"@,
        "馬力"@ != "メガビーピーエス"@,
        "馬力"@ != "ギガビーピーエス"@,
        "アールピーエム"@ != "エフピーエス"@,
        "アールピーエム"@ != "ビーピーエス"@,
        "アールピーエム"@ != "メガビーピーエス"@,
        "アールピーエム"@ != "ギガビーピーエス"@,
        "エフピーエス"@ != "ビーピーエス"@,
        "エフピーエス"@ != "メガビーピーエス"@,
        "エフピーエス"@ != "ギガビーピーエス"@,
        "ビーピーエス"@ != "メガビーピーエス"@,
        "ビーピーエス"@ != "ギガビーピーエス"@,
        "メガビーピーエス"@ != "ギガビーピーエス"@,
{
    reveal_strlit("ヘルツ");
    reveal_strlit("キロヘルツ");
    reveal_strlit("メガヘルツ");
    reveal_strlit("ギガヘルツ");
    reveal_strlit("キロメートル");
    reveal_strlit("センチメートル");
    reveal_strlit("ミリメートル");
    reveal_strlit("ナノメートル");
    reveal_strlit("キログラム");
    reveal_strlit("ミリグラム");
    reveal_strlit("キロワット");
    reveal_strlit("メガワット");
    reveal_strlit("ミリアンペア");
    reveal_strlit("キロボルト");
    reveal_strlit("デシベル");
    reveal_strlit("パスカル");
    reveal_strlit("ヘクトパスカル");
    reveal_strlit("キロパスカル");
    reveal_strlit("メガパスカル");
    reveal_strlit("キロバイト");
    reveal_strlit("メガバイト");
    reveal_strlit("ギガバイト");
    reveal_strlit("テラバイト");
    reveal_strlit("ワットアワー");
    reveal_strlit("キロワットアワー");
    reveal_strlit("アンペアアワー");
    reveal_strlit("ミリアンペアアワー");
    reveal_strlit("シーシー");
    reveal_strlit("馬力");
    reveal_strlit("アールピーエム");
    reveal_strlit("エフピーエス");
    reveal_strlit("ビーピーエス");
    reveal_strlit("メガビーピーエス");
    reveal_strlit("ギガビーピーエス");
    assert("ヘルツ"@.len() != "キロヘルツ"@.len());
    assert("ヘルツ"@.len() != "メガヘルツ"@.len());
    assert("ヘルツ"@.len() != "ギガヘルツ"@.len());
    assert("ヘルツ"@.len() != "キロメートル"@.len());
    assert("ヘルツ"@.len() != "センチメートル"@.len());
    assert("ヘルツ"@.len() != "ミリメートル"@.len());
    assert("ヘルツ"@.len() != "ナノメートル"@.len());
    assert("ヘルツ"@.len() != "キログラム"@.len());
    assert("ヘルツ"@.len() != "ミリグラム"@.len());
    assert("ヘルツ"@.len() != "キロワット"@.len());
    assert("ヘルツ"@.len() != "メガワット"@.len());
    assert("ヘルツ"@.len() != "ミリアンペア"@.len());
    assert("ヘルツ"@.len() != "キロボルト"@.len());
    assert("ヘルツ"@.len() != "デシベル"@.len());
    assert("ヘルツ"@.len() != "パスカル"@.len());
    assert("ヘルツ"@.len() != "ヘクトパスカル"@.len());
    assert("ヘルツ"@.len() != "キロパスカル"@.len());
    assert("ヘルツ"@.len() != "メガパスカル"@.len());
    assert("ヘルツ"@.len() != "キロバイト"@.len());
    assert("ヘルツ"@.len() != "メガバイト"@.len());
    assert("ヘルツ"@.len() != "ギガバイト"@.len());
    assert("ヘルツ"@.len() != "テラバイト"@.len());
    assert("ヘルツ"@.len() != "ワットアワー"@.len());
    assert("ヘルツ"@.len() != "キロワットアワー"@.len());
    assert("ヘルツ"@.len() != "アンペアアワー"@.len());
    assert("ヘルツ"@.len() != "ミリアンペアアワー"@.len());
    assert("ヘルツ"@.len() != "シーシー"@.len());
    assert("ヘルツ"@.len() != "馬力"@.len());
    assert("ヘルツ"@.len() != "アールピーエム"@.len());
    assert("ヘルツ"@.len() != "エフピーエス"@.len());
    assert("ヘルツ"@.len() != "ビーピーエス"@.len());
    assert("ヘルツ"@.len() != "メガビーピーエス"@.len());
    assert("ヘルツ"@.len() != "ギガビーピーエス"@.len());
    assert("キロヘルツ"@[0] != "メガヘルツ"@[0]);
    assert("キロヘルツ"@[0] != "ギガヘルツ"@[0]);
    assert("キロヘルツ"@.len() != "キロメートル"@.len());
    assert("キロヘルツ"@.len() != "センチメートル"@.len());
    assert("キロヘルツ"@.len() != "ミリメートル"@.len());
    assert("キロヘルツ"@.len() != "ナノメートル"@.len());
    assert("キロヘルツ"@[2] != "キログラム"@[2]);
    assert("キロヘルツ"@[0] != "ミリグラム"@[0]);
    assert("キロヘルツ"@[2] != "キロワット"@[2]);
    assert("キロヘルツ"@[0] != "メガワット"@[0]);
    assert("キロヘルツ"@.len() != "ミリアンペア"@.len());
    assert("キロヘルツ"@[2] != "キロボルト"@[2]);
    assert("キロヘルツ"@.len() != "デシベル"@.len());
    assert("キロヘルツ"@.len() != "パスカル"@.len());
    assert("キロヘルツ"@.len() != "ヘクトパスカル"@.len());
    assert("キロヘルツ"@.len() != "キロパスカル"@.len());
    assert("キロヘルツ"@.len() != "メガパスカル"@.len());
    assert("キロヘルツ"@[2] != "キロバイト"@[2]);
    assert("キロヘルツ"@[0] != "メガバイト"@[0]);
    assert("キロヘルツ"@[0] != "ギガバイト"@[0]);
    assert("キロヘルツ"@[0] != "テラバイト"@[0]);
    assert("キロヘルツ"@.len() != "ワットアワー"@.len());
    assert("キロヘルツ"@.len() != "キロワットアワー"@.len());
    assert("キロヘルツ"@.len() != "アンペアアワー"@.len());
    assert("キロヘルツ"@.len() != "ミリアンペアアワー"@.len());
    assert("キロヘルツ"@.len() != "シーシー"@.len());
    assert("キロヘルツ"@.len() != "馬力"@.len());
    assert("キロヘルツ"@.len() != "アールピーエム"@.len());
    assert("キロヘルツ"@.len() != "エフピーエス"@.len());
    assert("キロヘルツ"@.len() != "ビーピーエス"@.len());
    assert("キロヘルツ"@.len() != "メガビーピーエス"@.len());
    assert("キロヘルツ"@.len() != "ギガビーピーエス"@.len());
    assert("メガヘルツ"@[0] != "ギガヘルツ"@[0]);
    assert("メガヘルツ"@.len() != "キロメートル"@.len());
    assert("メガヘルツ"@.len() != "センチメートル"@.len());
    assert("メガヘルツ"@.len() != "ミリメートル"@.len());
    assert("メガヘルツ"@.len() != "ナノメートル"@.len());
    assert("メガヘルツ"@[0] != "キログラム"@[0]);
    assert("メガヘルツ"@[0] != "ミリグラム"@[0]);
    assert("メガヘルツ"@[0] != "キロワット"@[0]);
    assert("メガヘルツ"@[2] != "メガワット"@[2]);
    assert("メガヘルツ"@.len() != "ミリアンペア"@.len());
    assert("メガヘルツ"@[0] != "キロボルト"@[0]);
    assert("メガヘルツ"@.len() != "デシベル"@.len());
    assert("メガヘルツ"@.len() != "パスカル"@.len());
    assert("メガヘルツ"@.len() != "ヘクトパスカル"@.len());
    assert("メガヘルツ"@.len() != "キロパスカル"@.len());
    assert("メガヘルツ"@.len() != "メガパスカル"@.len());
    assert("メガヘルツ"@[0] != "キロバイト"@[0]);
    assert("メガヘルツ"@[2] != "メガバイト"@[2]);
    assert("メガヘルツ"@[0] != "ギガバイト"@[0]);
    assert("メガヘルツ"@[0] != "テラバイト"@[0]);
    assert("メガヘルツ"@.len() != "ワットアワー"@.len());
    assert("メガヘルツ"@.len() != "キロワットアワー"@.len());
    assert("メガヘルツ"@.len() != "アンペアアワー"@.len());
    assert("メガヘルツ"@.len() != "ミリアンペアアワー"@.len());
    assert("メガヘルツ"@.len() != "シーシー"@.len());
    assert("メガヘルツ"@.len() != "馬力"@.len());
    assert("メガヘルツ"@.len() != "アールピーエム"@.len());
    assert("メガヘルツ"@.len() != "エフピーエス"@.len());
    assert("メガヘルツ"@.len() != "ビーピーエス"@.len());
    assert("メガヘルツ"@.len() != "メガビーピーエス"@.len());
    assert("メガヘルツ"@.len() != "ギガビーピーエス"@.len());
    assert("ギガヘルツ"@.len() != "キロメートル"@.len());
    assert("ギガヘルツ"@.len() != "センチメートル"@.len());
    assert("ギガヘルツ"@.len() != "ミリメートル"@.len());
    assert("ギガヘルツ"@.len() != "ナノメートル"@.len());
    assert("ギガヘルツ"@[0] != "キログラム"@[0]);
    assert("ギガヘルツ"@[0] != "ミリグラム"@[0]);
    assert("ギガヘルツ"@[0] != "キロワット"@[0]);
    assert("ギガヘルツ"@[0] != "メガワット"@[0]);
    assert("ギガヘルツ"@.len() != "ミリアンペア"@.len());
    assert("ギガヘルツ"@[0] != "キロボルト"@[0]);
    assert("ギガヘルツ"@.len() != "デシベル"@.len());
    assert("ギガヘルツ"@.len() != "パスカル"@.len());
    assert("ギガヘルツ"@.len() != "ヘクトパスカル"@.len());
    assert("ギガヘルツ"@.len() != "キロパスカル"@.len());
    assert("ギガヘルツ"@.len() != "メガパスカル"@.len());
    assert("ギガヘルツ"@[0] != "キロバイト"@[0]);
    assert("ギガヘルツ"@[0] != "メガバイト"@[0]);
    assert("ギガヘルツ"@[2] != "ギガバイト"@[2]);
    assert("ギガヘルツ"@[0] != "テラバイト"@[0]);
    assert("ギガヘルツ"@.len() != "ワットアワー"@.len());
    assert("ギガヘルツ"@.len() != "キロワットアワー"@.len());
    assert("ギガヘルツ"@.len() != "アンペアアワー"@.len());
    assert("ギガヘルツ"@.len() != "ミリアンペアアワー"@.len());
    assert("ギガヘルツ"@.len() != "シーシー"@.len());
    assert("ギガヘルツ"@.len() != "馬力"@.len());
    assert("ギガヘルツ"@.len() != "アールピーエム"@.len());
    assert("ギガヘルツ"@.len() != "エフピーエス"@.len());
    assert("ギガヘルツ"@.len() != "ビーピーエス"@.len());
    assert("ギガヘルツ"@.len() != "メガビーピーエス"@.len());
    assert("ギガヘルツ"@.len() != "ギガビーピーエス"@.len());
    assert("キロメートル"@.len() != "センチメートル"@.len());
    assert("キロメートル"@[0] != "ミリメートル"@[0]);
    assert("キロメートル"@[0] != "ナノメートル"@[0]);
    assert("キロメートル"@.len() != "キログラム"@.len());
    assert("キロメートル"@.len() != "ミリグラム"@.len());
    assert("キロメートル"@.len() != "キロワット"@.len());
    assert("キロメートル"@.len() != "メガワット"@.len());
    assert("キロメートル"@[0] != "ミリアンペア"@[0]);
    assert("キロメートル"@.len() != "キロボルト"@.len());
    assert("キロメートル"@.len() != "デシベル"@.len());
    assert("キロメートル"@.len() != "パスカル"@.len());
    assert("キロメートル"@.len() != "ヘクトパスカル"@.len());
    assert("キロメートル"@[2] != "キロパスカル"@[2]);
    assert("キロメートル"@[0] != "メガパスカル"@[0]);
    assert("キロメートル"@.len() != "キロバイト"@.len());
    assert("キロメートル"@.len() != "メガバイト"@.len());
    assert("キロメートル"@.len() != "ギガバイト"@.len());
    assert("キロメートル"@.len() != "テラバイト"@.len());
    assert("キロメートル"@[0] != "ワットアワー"@[0]);
    assert("キロメートル"@.len() != "キロワットアワー"@.len());
    assert("キロメートル"@.len() != "アンペアアワー"@.len());
    assert("キロメートル"@.len() != "ミリアンペアアワー"@.len());
    assert("キロメートル"@.len() != "シーシー"@.len());
    assert("キロメートル"@.len() != "馬力"@.len());
    assert("キロメートル"@.len() != "アールピーエム"@.len());
    assert("キロメートル"@[0] != "エフピーエス"@[0]);
    assert("キロメートル"@[0] != "ビーピーエス"@[0]);
    assert("キロメートル"@.len() != "メガビーピーエス"@.len());
    assert("キロメートル"@.len() != "ギガビーピーエス"@.len());
    assert("センチメートル"@.len() != "ミリメートル"@.len());
    assert("センチメートル"@.len() != "ナノメートル"@.len());
    assert("センチメートル"@.len() != "キログラム"@.len());
    assert("センチメートル"@.len() != "ミリグラム"@.len());
    assert("センチメートル"@.len() != "キロワット"@.len());
    assert("センチメートル"@.len() != "メガワット"@.len());
    assert("センチメートル"@.len() != "ミリアンペア"@.len());
    assert("センチメートル"@.len() != "キロボルト"@.len());
    assert("センチメートル"@.len() != "デシベル"@.len());
    assert("センチメートル"@.len() != "パスカル"@.len());
    assert("センチメートル"@[0] != "ヘクトパスカル"@[0]);
    assert("センチメートル"@.len() != "キロパスカル"@.len());
    assert("センチメートル"@.len() != "メガパスカル"@.len());
    assert("センチメートル"@.len() != "キロバイト"@.len());
    assert("センチメートル"@.len() != "メガバイト"@.len());
    assert("センチメートル"@.len() != "ギガバイト"@.len());
    assert("センチメートル"@.len() != "テラバイト"@.len());
    assert("センチメートル"@.len() != "ワットアワー"@.len());
    assert("センチメートル"@.len() != "キロワットアワー"@.len());
    assert("センチメートル"@[0] != "アンペアアワー"@[0]);
    assert("センチメートル"@.len() != "ミリアンペアアワー"@.len());
    assert("センチメートル"@.len() != "シーシー"@.len());
    assert("センチメートル"@.len() != "馬力"@.len());
    assert("センチメートル"@[0] != "アールピーエム"@[0]);
    assert("センチメートル"@.len() != "エフピーエス"@.len());
    assert("センチメートル"@.len() != "ビーピーエス"@.len());
    assert("センチメートル"@.len() != "メガビーピーエス"@.len());
    assert("センチメートル"@.len() != "ギガビーピーエス"@.len());
    assert("ミリメートル"@[0] != "ナノメートル"@[0]);
    assert("ミリメートル"@.len() != "キログラム"@.len());
    assert("ミリメートル"@.len() != "ミリグラム"@.len());
    assert("ミリメートル"@.len() != "キロワット"@.len());
    assert("ミリメートル"@.len() != "メガワット"@.len());
    assert("ミリメートル"@[2] != "ミリアンペア"@[2]);
    assert("ミリメートル"@.len() != "キロボルト"@.len());
    assert("ミリメートル"@.len() != "デシベル"@.len());
    assert("ミリメートル"@.len() != "パスカル"@.len());
    assert("ミリメートル"@.len() != "ヘクトパスカル"@.len());
    assert("ミリメートル"@[0] != "キロパスカル"@[0]);
    assert("ミリメートル"@[0] != "メガパスカル"@[0]);
    assert("ミリメートル"@.len() != "キロバイト"@.len());
    assert("ミリメートル"@.len() != "メガバイト"@.len());
    assert("ミリメートル"@.len() != "ギガバイト"@.len());
    assert("ミリメートル"@.len() != "テラバイト"@.len());
    assert("ミリメートル"@[0] != "ワットアワー"@[0]);
    assert("ミリメートル"@.len() != "キロワットアワー"@.len());
    assert("ミリメートル"@.len() != "アンペアアワー"@.len());
    assert("ミリメートル"@.len() != "ミリアンペアアワー"@.len());
    assert("ミリメートル"@.len() != "シーシー"@.len());
    assert("ミリメートル"@.len() != "馬力"@.len());
    assert("ミリメートル"@.len() != "アールピーエム"@.len());
    assert("ミリメートル"@[0] != "エフピーエス"@[0]);
    assert("ミリメートル"@[0] != "ビーピーエス"@[0]);
    assert("ミリメートル"@.len() != "メガビーピーエス"@.len());
    assert("ミリメートル"@.len() != "ギガビーピーエス"@.len());
    assert("ナノメートル"@.len() != "キログラム"@.len());
    assert("ナノメートル"@.len() != "ミリグラム"@.len());
    assert("ナノメートル"@.len() != "キロワット"@.len());
    assert("ナノメートル"@.len() != "メガワット"@.len());
    assert("ナノメートル"@[0] != "ミリアンペア"@[0]);
    assert("ナノメートル"@.len() != "キロボルト"@.len());
    assert("ナノメートル"@.len() != "デシベル"@.len());
    assert("ナノメートル"@.len() != "パスカル"@.len());
    assert("ナノメートル"@.len() != "ヘクトパスカル"@.len());
    assert("ナノメートル"@[0] != "キロパスカル"@[0]);
    assert("ナノメートル"@[0] != "メガパスカル"@[0]);
    assert("ナノメートル"@.len() != "キロバイト"@.len());
    assert("ナノメートル"@.len() != "メガバイト"@.len());
    assert("ナノメートル"@.len() != "ギガバイト"@.len());
    assert("ナノメートル"@.len() != "テラバイト"@.len());
    assert("ナノメートル"@[0] != "ワットアワー"@[0]);
    assert("ナノメートル"@.len() != "キロワットアワー"@.len());
    assert("ナノメートル"@.len() != "アンペアアワー"@.len());
    assert("ナノメートル"@.len() != "ミリアンペアアワー"@.len());
    assert("ナノメートル"@.len() != "シーシー"@.len());
    assert("ナノメートル"@.len() != "馬力"@.len());
    assert("ナノメートル"@.len() != "アールピーエム"@.len());
    assert("ナノメートル"@[0] != "エフピーエス"@[0]);
    assert("ナノメートル"@[0] != "ビーピーエス"@[0]);
    assert("ナノメートル"@.len() != "メガビーピーエス"@.len());
    assert("ナノメートル"@.len() != "ギガビーピーエス"@.len());
    assert("キログラム"@[0] != "ミリグラム"@[0]);
    assert("キログラム"@[2] != "キロワット"@[2]);
    assert("キログラム"@[0] != "メガワット"@[0]);
    assert("キログラム"@.len() != "ミリアンペア"@.len());
    assert("キログラム"@[2] != "キロボルト"@[2]);
    assert("キログラム"@.len() != "デシベル"@.len());
    assert("キログラム"@.len() != "パスカル"@.len());
    assert("キログラム"@.len() != "ヘクトパスカル"@.len());
    assert("キログラム"@.len() != "キロパスカル"@.len());
    assert("キログラム"@.len() != "メガパスカル"@.len());
    assert("キログラム"@[2] != "キロバイト"@[2]);
    assert("キログラム"@[0] != "メガバイト"@[0]);
    assert("キログラム"@[0] != "ギガバイト"@[0]);
    assert("キログラム"@[0] != "テラバイト"@[0]);
    assert("キログラム"@.len() != "ワットアワー"@.len());
    assert("キログラム"@.len() != "キロワットアワー"@.len());
    assert("キログラム"@.len() != "アンペアアワー"@.len());
    assert("キログラム"@.len() != "ミリアンペアアワー"@.len());
    assert("キログラム"@.len() != "シーシー"@.len());
    assert("キログラム"@.len() != "馬力"@.len());
    assert("キログラム"@.len() != "アールピーエム"@.len());
    assert("キログラム"@.len() != "エフピーエス"@.len());
    assert("キログラム"@.len() != "ビーピーエス"@.len());
    assert("キログラム"@.len() != "メガビーピーエス"@.len());
    assert("キログラム"@.len() != "ギガビーピーエス"@.len());
    assert("ミリグラム"@[0] != "キロワット"@[0]);
    assert("ミリグラム"@[0] != "メガワット"@[0]);
    assert("ミリグラム"@.len() != "ミリアンペア"@.len());
    assert("ミリグラム"@[0] != "キロボルト"@[0]);
    assert("ミリグラム"@.len() != "デシベル"@.len());
    assert("ミリグラム"@.len() != "パスカル"@.len());
    assert("ミリグラム"@.len() != "ヘクトパスカル"@.len());
    assert("ミリグラム"@.len() != "キロパスカル"@.len());
    assert("ミリグラム"@.len() != "メガパスカル"@.len());
    assert("ミリグラム"@[0] != "キロバイト"@[0]);
    assert("ミリグラム"@[0] != "メガバイト"@[0]);
    assert("ミリグラム"@[0] != "ギガバイト"@[0]);
    assert("ミリグラム"@[0] != "テラバイト"@[0]);
    assert("ミリグラム"@.len() != "ワットアワー"@.len());
    assert("ミリグラム"@.len() != "キロワットアワー"@.len());
    assert("ミリグラム"@.len() != "アンペアアワー"@.len());
    assert("ミリグラム"@.len() != "ミリアンペアアワー"@.len());
    assert("ミリグラム"@.len() != "シーシー"@.len());
    assert("ミリグラム"@.len() != "馬力"@.len());
    assert("ミリグラム"@.len() != "アールピーエム"@.len());
    assert("ミリグラム"@.len() != "エフピーエス"@.len());
    assert("ミリグラム"@.len() != "ビーピーエス"@.len());
    assert("ミリグラム"@.len() != "メガビーピーエス"@.len());
    assert("ミリグラム"@.len() != "ギガビーピーエス"@.len());
    assert("キロワット"@[0] != "メガワット"@[0]);
    assert("キロワット"@.len() != "ミリアンペア"@.len());
    assert("キロワット"@[2] != "キロボルト"@[2]);
    assert("キロワット"@.len() != "デシベル"@.len());
    assert("キロワット"@.len() != "パスカル"@.len());
    assert("キロワット"@.len() != "ヘクトパスカル"@.len());
    assert("キロワット"@.len() != "キロパスカル"@.len());
    assert("キロワット"@.len() != "メガパスカル"@.len());
    assert("キロワット"@[2] != "キロバイト"@[2]);
    assert("キロワット"@[0] != "メガバイト"@[0]);
    assert("キロワット"@[0] != "ギガバイト"@[0]);
    assert("キロワット"@[0] != "テラバイト"@[0]);
    assert("キロワット"@.len() != "ワットアワー"@.len());
    assert("キロワット"@.len() != "キロワットアワー"@.len());
    assert("キロワット"@.len() != "アンペアアワー"@.len());
    assert("キロワット"@.len() != "ミリアンペアアワー"@.len());
    assert("キロワット"@.len() != "シーシー"@.len());
    assert("キロワット"@.len() != "馬力"@.len());
    assert("キロワット"@.len() != "アールピーエム"@.len());
    assert("キロワット"@.len() != "エフピーエス"@.len());
    assert("キロワット"@.len() != "ビーピーエス"@.len());
    assert("キロワット"@.len() != "メガビーピーエス"@.len());
    assert("キロワット"@.len() != "ギガビーピーエス"@.len());
    assert("メガワット"@.len() != "ミリアンペア"@.len());
    assert("メガワット"@[0] != "キロボルト"@[0]);
    assert("メガワット"@.len() != "デシベル"@.len());
    assert("メガワット"@.len() != "パスカル"@.len());
    assert("メガワット"@.len() != "ヘクトパスカル"@.len());
    assert("メガワット"@.len() != "キロパスカル"@.len());
    assert("メガワット"@.len() != "メガパスカル"@.len());
    assert("メガワット"@[0] != "キロバイト"@[0]);
    assert("メガワット"@[2] != "メガバイト"@[2]);
    assert("メガワット"@[0] != "ギガバイト"@[0]);
    assert("メガワット"@[0] != "テラバイト"@[0]);
    assert("メガワット"@.len() != "ワットアワー"@.len());
    assert("メガワット"@.len() != "キロワットアワー"@.len());
    assert("メガワット"@.len() != "アンペアアワー"@.len());
    assert("メガワット"@.len() != "ミリアンペアアワー"@.len());
    assert("メガワット"@.len() != "シーシー"@.len());
    assert("メガワット"@.len() != "馬力"@.len());
    assert("メガワット"@.len() != "アールピーエム"@.len());
    assert("メガワット"@.len() != "エフピーエス"@.len());
    assert("メガワット"@.len() != "ビーピーエス"@.len());
    assert("メガワット"@.len() != "メガビーピーエス"@.len());
    assert("メガワット"@.len() != "ギガビーピーエス"@.len());
    assert("ミリアンペア"@.len() != "キロボルト"@.len());
    assert("ミリアンペア"@.len() != "デシベル"@.len());
    assert("ミリアンペア"@.len() != "パスカル"@.len());
    assert("ミリアンペア"@.len() != "ヘクトパスカル"@.len());
    assert("ミリアンペア"@[0] != "キロパスカル"@[0]);
    assert("ミリアンペア"@[0] != "メガパスカル"@[0]);
    assert("ミリアンペア"@.len() != "キロバイト"@.len());
    assert("ミリアンペア"@.len() != "メガバイト"@.len());
    assert("ミリアンペア"@.len() != "ギガバイト"@.len());
    assert("ミリアンペア"@.len() != "テラバイト"@.len());
    assert("ミリアンペア"@[0] != "ワットアワー"@[0]);
    assert("ミリアンペア"@.len() != "キロワットアワー"@.len());
    assert("ミリアンペア"@.len() != "アンペアアワー"@.len());
    assert("ミリアンペア"@.len() != "ミリアンペアアワー"@.len());
    assert("ミリアンペア"@.len() != "シーシー"@.len());
    assert("ミリアンペア"@.len() != "馬力"@.len());
    assert("ミリアンペア"@.len() != "アールピーエム"@.len());
    assert("ミリアンペア"@[0] != "エフピーエス"@[0]);
    assert("ミリアンペア"@[0] != "ビーピーエス"@[0]);
    assert("ミリアンペア"@.len() != "メガビーピーエス"@.len());
    assert("ミリアンペア"@.len() != "ギガビーピーエス"@.len());
    assert("キロボルト"@.len() != "デシベル"@.len());
    assert("キロボルト"@.len() != "パスカル"@.len());
    assert("キロボルト"@.len() != "ヘクトパスカル"@.len());
    assert("キロボルト"@.len() != "キロパスカル"@.len());
    assert("キロボルト"@.len() != "メガパスカル"@.len());
    assert("キロボルト"@[2] != "キロバイト"@[2]);
    assert("キロボルト"@[0] != "メガバイト"@[0]);
    assert("キロボルト"@[0] != "ギガバイト"@[0]);
    assert("キロボルト"@[0] != "テラバイト"@[0]);
    assert("キロボルト"@.len() != "ワットアワー"@.len());
    assert("キロボルト"@.len() != "キロワットアワー"@.len());
    assert("キロボルト"@.len() != "アンペアアワー"@.len());
    assert("キロボルト"@.len() != "ミリアンペアアワー"@.len());
    assert("キロボルト"@.len() != "シーシー"@.len());
    assert("キロボルト"@.len() != "馬力"@.len());
    assert("キロボルト"@.len() != "アールピーエム"@.len());
    assert("キロボルト"@.len() != "エフピーエス"@.len());
    assert("キロボルト"@.len() != "ビーピーエス"@.len());
    assert("キロボルト"@.len() != "メガビーピーエス"@.len());
    assert("キロボルト"@.len() != "ギガビーピーエス"@.len());
    assert("デシベル"@[0] != "パスカル"@[0]);
    assert("デシベル"@.len() != "ヘクトパスカル"@.len());
    assert("デシベル"@.len() != "キロパスカル"@.len());
    assert("デシベル"@.len() != "メガパスカル"@.len());
    assert("デシベル"@.len() != "キロバイト"@.len());
    assert("デシベル"@.len() != "メガバイト"@.len());
    assert("デシベル"@.len() != "ギガバイト"@.len());
    assert("デシベル"@.len() != "テラバイト"@.len());
    assert("デシベル"@.len() != "ワットアワー"@.len());
    assert("デシベル"@.len() != "キロワットアワー"@.len());
    assert("デシベル"@.len() != "アンペアアワー"@.len());
    assert("デシベル"@.len() != "ミリアンペアアワー"@.len());
    assert("デシベル"@[0] != "シーシー"@[0]);
    assert("デシベル"@.len() != "馬力"@.len());
    assert("デシベル"@.len() != "アールピーエム"@.len());
    assert("デシベル"@.len() != "エフピーエス"@.len());
    assert("デシベル"@.len() != "ビーピーエス"@.len());
    assert("デシベル"@.len() != "メガビーピーエス"@.len());
    assert("デシベル"@.len() != "ギガビーピーエス"@.len());
    assert("パスカル"@.len() != "ヘクトパスカル"@.len());
    assert("パスカル"@.len() != "キロパスカル"@.len());
    assert("パスカル"@.len() != "メガパスカル"@.len());
    assert("パスカル"@.len() != "キロバイト"@.len());
    assert("パスカル"@.len() != "メガバイト"@.len());
    assert("パスカル"@.len() != "ギガバイト"@.len());
    assert("パスカル"@.len() != "テラバイト"@.len());
    assert("パスカル"@.len() != "ワットアワー"@.len());
    assert("パスカル"@.len() != "キロワットアワー"@.len());
    assert("パスカル"@.len() != "アンペアアワー"@.len());
    assert("パスカル"@.len() != "ミリアンペアアワー"@.len());
    assert("パスカル"@[0] != "シーシー"@[0]);
    assert("パスカル"@.len() != "馬力"@.len());
    assert("パスカル"@.len() != "アールピーエム"@.len());
    assert("パスカル"@.len() != "エフピーエス"@.len());
    assert("パスカル"@.len() != "ビーピーエス"@.len());
    assert("パスカル"@.len() != "メガビーピーエス"@.len());
    assert("パスカル"@.len() != "ギガビーピーエス"@.len());
    assert("ヘクトパスカル"@.len() != "キロパスカル"@.len());
    assert("ヘクトパスカル"@.len() != "メガパスカル"@.len());
    assert("ヘクトパスカル"@.len() != "キロバイト"@.len());
    assert("ヘクトパスカル"@.len() != "メガバイト"@.len());
    assert("ヘクトパスカル"@.len() != "ギガバイト"@.len());
    assert("ヘクトパスカル"@.len() != "テラバイト"@.len());
    assert("ヘクトパスカル"@.len() != "ワットアワー"@.len());
    assert("ヘクトパスカル"@.len() != "キロワットアワー"@.len());
    assert("ヘクトパスカル"@[0] != "アンペアアワー"@[0]);
    assert("ヘクトパスカル"@.len() != "ミリアンペアアワー"@.len());
    assert("ヘクトパスカル"@.len() != "シーシー"@.len());
    assert("ヘクトパスカル"@.len() != "馬力"@.len());
    assert("ヘクトパスカル"@[0] != "アールピーエム"@[0]);
    assert("ヘクトパスカル"@.len() != "エフピーエス"@.len());
    assert("ヘクトパスカル"@.len() != "ビーピーエス"@.len());
    assert("ヘクトパスカル"@.len() != "メガビーピーエス"@.len());
    assert("ヘクトパスカル"@.len() != "ギガビーピーエス"@.len());
    assert("キロパスカル"@[0] != "メガパスカル"@[0]);
    assert("キロパスカル"@.len() != "キロバイト"@.len());
    assert("キロパスカル"@.len() != "メガバイト"@.len());
    assert("キロパスカル"@.len() != "ギガバイト"@.len());
    assert("キロパスカル"@.len() != "テラバイト"@.len());
    assert("キロパスカル"@[0] != "ワットアワー"@[0]);
    assert("キロパスカル"@.len() != "キロワットアワー"@.len());
    assert("キロパスカル"@.len() != "アンペアアワー"@.len());
    assert("キロパスカル"@.len() != "ミリアンペアアワー"@.len());
    assert("キロパスカル"@.len() != "シーシー"@.len());
    assert("キロパスカル"@.len() != "馬力"@.len());
    assert("キロパスカル"@.len() != "アールピーエム"@.len());
    assert("キロパスカル"@[0] != "エフピーエス"@[0]);
    assert("キロパスカル"@[0] != "ビーピーエス"@[0]);
    assert("キロパスカル"@.len() != "メガビーピーエス"@.len());
    assert("キロパスカル"@.len() != "ギガビーピーエス"@.len());
    assert("メガパスカル"@.len() != "キロバイト"@.len());
    assert("メガパスカル"@.len() != "メガバイト"@.len());
    assert("メガパスカル"@.len() != "ギガバイト"@.len());
    assert("メガパスカル"@.len() != "テラバイト"@.len());
    assert("メガパスカル"@[0] != "ワットアワー"@[0]);
    assert("メガパスカル"@.len() != "キロワットアワー"@.len());
    assert("メガパスカル"@.len() != "アンペアアワー"@.len());
    assert("メガパスカル"@.len() != "ミリアンペアアワー"@.len());
    assert("メガパスカル"@.len() != "シーシー"@.len());
    assert("メガパスカル"@.len() != "馬力"@.len());
    assert("メガパスカル"@.len() != "アールピーエム"@.len());
    assert("メガパスカル"@[0] != "エフピーエス"@[0]);
    assert("メガパスカル"@[0] != "ビーピーエス"@[0]);
    assert("メガパスカル"@.len() != "メガビーピーエス"@.len());
    assert("メガパスカル"@.len() != "ギガビーピーエス"@.len());
    assert("キロバイト"@[0] != "メガバイト"@[0]);
    assert("キロバイト"@[0] != "ギガバイト"@[0]);
    assert("キロバイト"@[0] != "テラバイト"@[0]);
    assert("キロバイト"@.len() != "ワットアワー"@.len());
    assert("キロバイト"@.len() != "キロワットアワー"@.len());
    assert("キロバイト"@.len() != "アンペアアワー"@.len());
    assert("キロバイト"@.len() != "ミリアンペアアワー"@.len());
    assert("キロバイト"@.len() != "シーシー"@.len());
    assert("キロバイト"@.len() != "馬力"@.len());
    assert("キロバイト"@.len() != "アールピーエム"@.len());
    assert("キロバイト"@.len() != "エフピーエス"@.len());
    assert("キロバイト"@.len() != "ビーピーエス"@.len());
    assert("キロバイト"@.len() != "メガビーピーエス"@.len());
    assert("キロバイト"@.len() != "ギガビーピーエス"@.len());
    assert("メガバイト"@[0] != "ギガバイト"@[0]);
    assert("メガバイト"@[0] != "テラバイト"@[0]);
    assert("メガバイト"@.len() != "ワットアワー"@.len());
    assert("メガバイト"@.len() != "キロワットアワー"@.len());
    assert("メガバイト"@.len() != "アンペアアワー"@.len());
    assert("メガバイト"@.len() != "ミリアンペアアワー"@.len());
    assert("メガバイト"@.len() != "シーシー"@.len());
    assert("メガバイト"@.len() != "馬力"@.len());
    assert("メガバイト"@.len() != "アールピーエム"@.len());
    assert("メガバイト"@.len() != "エフピーエス"@.len());
    assert("メガバイト"@.len() != "ビーピーエス"@.len());
    assert("メガバイト"@.len() != "メガビーピーエス"@.len());
    assert("メガバイト"@.len() != "ギガビーピーエス"@.len());
    assert("ギガバイト"@[0] != "テラバイト"@[0]);
    assert("ギガバイト"@.len() != "ワットアワー"@.len());
    assert("ギガバイト"@.len() != "キロワットアワー"@.len());
    assert("ギガバイト"@.len() != "アンペアアワー"@.len());
    assert("ギガバイト"@.len() != "ミリアンペアアワー"@.len());
    assert("ギガバイト"@.len() != "シーシー"@.len());
    assert("ギガバイト"@.len() != "馬力"@.len());
    assert("ギガバイト"@.len() != "アールピーエム"@.len());
    assert("ギガバイト"@.len() != "エフピーエス"@.len());
    assert("ギガバイト"@.len() != "ビーピーエス"@.len());
    assert("ギガバイト"@.len() != "メガビーピーエス"@.len());
    assert("ギガバイト"@.len() != "ギガビーピーエス"@.len());
    assert("テラバイト"@.len() != "ワットアワー"@.len());
    assert("テラバイト"@.len() != "キロワットアワー"@.len());
    assert("テラバイト"@.len() != "アンペアアワー"@.len());
    assert("テラバイト"@.len() != "ミリアンペアアワー"@.len());
    assert("テラバイト"@.len() != "シーシー"@.len());
    assert("テラバイト"@.len() != "馬力"@.len());
    assert("テラバイト"@.len() != "アールピーエム"@.len());
    assert("テラバイト"@.len() != "エフピーエス"@.len());
    assert("テラバイト"@.len() != "ビーピーエス"@.len());
    assert("テラバイト"@.len() != "メガビーピーエス"@.len());
    assert("テラバイト"@.len() != "ギガビーピーエス"@.len());
    assert("ワットアワー"@.len() != "キロワットアワー"@.len());
    assert("ワットアワー"@.len() != "アンペアアワー"@.len());
    assert("ワットアワー"@.len() != "ミリアンペアアワー"@.len());
    assert("ワットアワー"@.len() != "シーシー"@.len());
    assert("ワットアワー"@.len() != "馬力"@.len());
    assert("ワットアワー"@.len() != "アールピーエム"@.len());
    assert("ワットアワー"@[0] != "エフピーエス"@[0]);
    assert("ワットアワー"@[0] != "ビーピーエス"@[0]);
    assert("ワットアワー"@.len() != "メガビーピーエス"@.len());
    assert("ワットアワー"@.len() != "ギガビーピーエス"@.len());
    assert("キロワットアワー"@.len() != "アンペアアワー"@.len());
    assert("キロワットアワー"@.len() != "ミリアンペアアワー"@.len());
    assert("キロワットアワー"@.len() != "シーシー"@.len());
    assert("キロワットアワー"@.len() != "馬力"@.len());
    assert("キロワットアワー"@.len() != "アールピーエム"@.len());
    assert("キロワットアワー"@.len() != "エフピーエス"@.len());
    assert("キロワットアワー"@.len() != "ビーピーエス"@.len());
    assert("キロワットアワー"@[0] != "メガビーピーエス"@[0]);
    assert("キロワットアワー"@[0] != "ギガビーピーエス"@[0]);
    assert("アンペアアワー"@.len() != "ミリアンペアアワー"@.len());
    assert("アンペアアワー"@.len() != "シーシー"@.len());
    assert("アンペアアワー"@.len() != "馬力"@.len());
    assert("アンペアアワー"@[1] != "アールピーエム"@[1]);
    assert("アンペアアワー"@.len() != "エフピーエス"@.len());
    assert("アンペアアワー"@.len() != "ビーピーエス"@.len());
    assert("アンペアアワー"@.len() != "メガビーピーエス"@.len());
    assert("アンペアアワー"@.len() != "ギガビーピーエス"@.len());
    assert("ミリアンペアアワー"@.len() != "シーシー"@.len());
    assert("ミリアンペアアワー"@.len() != "馬力"@.len());
    assert("ミリアンペアアワー"@.len() != "アールピーエム"@.len());
    assert("ミリアンペアアワー"@.len() != "エフピーエス"@.len());
    assert("ミリアンペアアワー"@.len() != "ビーピーエス"@.len());
    assert("ミリアンペアアワー"@.len() != "メガビーピーエス"@.len());
    assert("ミリアンペアアワー"@.len() != "ギガビーピーエス"@.len());
    assert("シーシー"@.len() != "馬力"@.len());
    assert("シーシー"@.len() != "アールピーエム"@.len());
    assert("シーシー"@.len() != "エフピーエス"@.len());
    assert("シーシー"@.len() != "ビーピーエス"@.len());
    assert("シーシー"@.len() != "メガビーピーエス"@.len());
    assert("シーシー"@.len() != "ギガビーピーエス"@.len());
    assert("馬力"@.len() != "アールピーエム"@.len());
    assert("馬力"@.len() != "エフピーエス"@.len());
    assert("馬力"@.len() != "ビーピーエス"@.len());
    assert("馬力"@.len() != "メガビーピーエス"@.len());
    assert("馬力"@.len() != "ギガビーピーエス"@.len());
    assert("アールピーエム"@.len() != "エフピーエス"@.len());
    assert("アールピーエム"@.len() != "ビーピーエス"@.len());
    assert("アールピーエム"@.len() != "メガビーピーエス"@.len());
    assert("アールピーエム"@.len() != "ギガビーピーエス"@.len());
    assert("エフピーエス"@[0] != "ビーピーエス"@[0]);
    assert("エフピーエス"@.len() != "メガビーピーエス"@.len());
    assert("エフピーエス"@.len() != "ギガビーピーエス"@.len());
    assert("ビーピーエス"@.len() != "メガビーピーエス"@.len());
    assert("ビーピーエス"@.len() != "ギガビーピーエス"@.len());
    assert("メガビーピーエス"@[0] != "ギガビーピーエス"@[0]);
}

/// Two different units of several letters never read the same.
#[verifier::rlimit(100)]
pub proof fn lemma_unit_readings_distinct(u1: Seq<char>, u2: Seq<char>)
    requires
        u1 != u2,
        spec_unit_reading_multi(u1) is Some,
    ensures
        spec_unit_reading_multi(u1) != spec_unit_reading_multi(u2),
{
    lemma_unit_reading_literals_differ();
}

} // verus!
