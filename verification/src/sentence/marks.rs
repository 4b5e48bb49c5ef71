//! The characters that take part in splitting: brackets (rule 2), line breaks, sentence enders and
//! the context rules that switch an ender off (rules 4 and 9).

use vstd::prelude::*;
use super::chars::spec_is_sentence_ender;

verus! {

/// Number of bracket kinds.
pub const BRACKET_KINDS: usize = 22;

/// Bracket kind of `c` and whether it opens (`None` for other characters). `〝` closes with `〟`
/// or `〞`.
pub open spec fn spec_bracket(c: char) -> Option<(u8, bool)> {
    match c {
        '「' => Some((0u8, true)),
        '」' => Some((0u8, false)),
        '『' => Some((1u8, true)),
        '』' => Some((1u8, false)),
        '（' => Some((2u8, true)),
        '）' => Some((2u8, false)),
        '(' => Some((3u8, true)),
        ')' => Some((3u8, false)),
        '〔' => Some((4u8, true)),
        '〕' => Some((4u8, false)),
        '［' => Some((5u8, true)),
        '］' => Some((5u8, false)),
        '[' => Some((6u8, true)),
        ']' => Some((6u8, false)),
        '｛' => Some((7u8, true)),
        '｝' => Some((7u8, false)),
        '{' => Some((8u8, true)),
        '}' => Some((8u8, false)),
        '〈' => Some((9u8, true)),
        '〉' => Some((9u8, false)),
        '《' => Some((10u8, true)),
        '》' => Some((10u8, false)),
        '【' => Some((11u8, true)),
        '】' => Some((11u8, false)),
        '〖' => Some((12u8, true)),
        '〗' => Some((12u8, false)),
        '〘' => Some((13u8, true)),
        '〙' => Some((13u8, false)),
        '〚' => Some((14u8, true)),
        '〛' => Some((14u8, false)),
        '｟' => Some((15u8, true)),
        '｠' => Some((15u8, false)),
        '“' => Some((16u8, true)),
        '”' => Some((16u8, false)),
        '‘' => Some((17u8, true)),
        '’' => Some((17u8, false)),
        '«' => Some((18u8, true)),
        '»' => Some((18u8, false)),
        '‹' => Some((19u8, true)),
        '›' => Some((19u8, false)),
        '｢' => Some((20u8, true)),
        '｣' => Some((20u8, false)),
        '〝' => Some((21u8, true)),
        '〟' => Some((21u8, false)),
        '〞' => Some((21u8, false)),
        _ => None,
    }
}

/// Bracket kind of `c` and whether it opens.
pub fn bracket(c: char) -> (r: Option<(u8, bool)>)
    ensures
        r == spec_bracket(c),
        r matches Some((k, _)) ==> k < BRACKET_KINDS,
{
    match c {
        '「' => Some((0u8, true)),
        '」' => Some((0u8, false)),
        '『' => Some((1u8, true)),
        '』' => Some((1u8, false)),
        '（' => Some((2u8, true)),
        '）' => Some((2u8, false)),
        '(' => Some((3u8, true)),
        ')' => Some((3u8, false)),
        '〔' => Some((4u8, true)),
        '〕' => Some((4u8, false)),
        '［' => Some((5u8, true)),
        '］' => Some((5u8, false)),
        '[' => Some((6u8, true)),
        ']' => Some((6u8, false)),
        '｛' => Some((7u8, true)),
        '｝' => Some((7u8, false)),
        '{' => Some((8u8, true)),
        '}' => Some((8u8, false)),
        '〈' => Some((9u8, true)),
        '〉' => Some((9u8, false)),
        '《' => Some((10u8, true)),
        '》' => Some((10u8, false)),
        '【' => Some((11u8, true)),
        '】' => Some((11u8, false)),
        '〖' => Some((12u8, true)),
        '〗' => Some((12u8, false)),
        '〘' => Some((13u8, true)),
        '〙' => Some((13u8, false)),
        '〚' => Some((14u8, true)),
        '〛' => Some((14u8, false)),
        '｟' => Some((15u8, true)),
        '｠' => Some((15u8, false)),
        '“' => Some((16u8, true)),
        '”' => Some((16u8, false)),
        '‘' => Some((17u8, true)),
        '’' => Some((17u8, false)),
        '«' => Some((18u8, true)),
        '»' => Some((18u8, false)),
        '‹' => Some((19u8, true)),
        '›' => Some((19u8, false)),
        '｢' => Some((20u8, true)),
        '｣' => Some((20u8, false)),
        '〝' => Some((21u8, true)),
        '〟' => Some((21u8, false)),
        '〞' => Some((21u8, false)),
        _ => None,
    }
}

/// The closing bracket that pairs with the opening bracket `open` (`〟` for `〝`).
pub open spec fn spec_closing_bracket(open: char) -> Option<char> {
    match open {
        '「' => Some('」'),
        '『' => Some('』'),
        '（' => Some('）'),
        '(' => Some(')'),
        '〔' => Some('〕'),
        '［' => Some('］'),
        '[' => Some(']'),
        '｛' => Some('｝'),
        '{' => Some('}'),
        '〈' => Some('〉'),
        '《' => Some('》'),
        '【' => Some('】'),
        '〖' => Some('〗'),
        '〘' => Some('〙'),
        '〚' => Some('〛'),
        '｟' => Some('｠'),
        '“' => Some('”'),
        '‘' => Some('’'),
        '«' => Some('»'),
        '‹' => Some('›'),
        '｢' => Some('｣'),
        '〝' => Some('〟'),
        _ => None,
    }
}

/// The closing bracket for an opening bracket of rule 2 (`None` for anything else, including the
/// ASCII quotes `"` and `'`, which are not brackets).
pub fn closing_bracket(open: char) -> (r: Option<char>)
    ensures
        r == spec_closing_bracket(open),
        r is Some <==> spec_bracket(open) matches Some((_, true)),
        r matches Some(close) ==> spec_bracket(close) == Some((spec_bracket(open).unwrap().0, false)),
{
    match open {
        '「' => Some('」'),
        '『' => Some('』'),
        '（' => Some('）'),
        '(' => Some(')'),
        '〔' => Some('〕'),
        '［' => Some('］'),
        '[' => Some(']'),
        '｛' => Some('｝'),
        '{' => Some('}'),
        '〈' => Some('〉'),
        '《' => Some('》'),
        '【' => Some('】'),
        '〖' => Some('〗'),
        '〘' => Some('〙'),
        '〚' => Some('〛'),
        '｟' => Some('｠'),
        '“' => Some('”'),
        '‘' => Some('’'),
        '«' => Some('»'),
        '‹' => Some('›'),
        '｢' => Some('｣'),
        '〝' => Some('〟'),
        _ => None,
    }
}

/// Whether `c` is a closing bracket of rule 2 (`〟` and `〞` included).
pub fn is_closing_bracket(c: char) -> (r: bool)
    ensures
        r == (spec_bracket(c) matches Some((_, false))),
{
    match bracket(c) {
        Some((_, open)) => !open,
        None => false,
    }
}

/// ASCII punctuation (`!"#$%&'()*+,-./:;<=>?@[\]^_`{|}~`).
pub open spec fn spec_is_ascii_punctuation(c: char) -> bool {
    ('!' <= c <= '/') || (':' <= c <= '@') || ('[' <= c <= '`') || ('{' <= c <= '~')
}

/// Rule 4: a run of ASCII `!` `?` ends a sentence unless the character after it is an ASCII
/// letter, digit or symbol other than a closing `)` `]` `}`.
pub open spec fn spec_ascii_run_is_ender(next: Option<char>) -> bool {
    match next {
        None => true,
        Some(c) => c == ')' || c == ']' || c == '}' || !(super::chars::spec_is_ascii_alphanumeric(c)
            || spec_is_ascii_punctuation(c)),
    }
}

/// Whether a run of ASCII `!` `?` followed by `next` (`None` at the end of the text) ends a
/// sentence (rule 4): not before alphanumerics or ASCII symbols (`?id=1`, `!important`), but
/// before spaces, Japanese text, closing brackets and the end.
pub fn ascii_run_is_ender(next: Option<char>) -> (r: bool)
    ensures
        r == spec_ascii_run_is_ender(next),
{
    match next {
        None => true,
        Some(c) => {
            c == ')' || c == ']' || c == '}' || !(super::chars::is_ascii_alphanumeric(c) || ('!'
                <= c && c <= '/') || (':' <= c && c <= '@') || ('[' <= c && c <= '`') || ('{' <= c
                && c <= '~'))
        },
    }
}

/// How a character takes part in splitting.
#[derive(Debug, Clone, Copy, PartialEq, Eq, Structural)]
pub enum CharKind {
    Other,
    /// A sentence ender that ends a sentence wherever it stands (full-width and others)
    Ender,
    /// ASCII `!` `?`, decided by the character after the run (rule 4)
    AsciiEnder,
    Open(u8),
    Close(u8),
    LineBreak,
}

pub open spec fn spec_is_line_break(c: char) -> bool {
    c == '\n' || c == '\r' || c == '\u{2028}' || c == '\u{2029}'
}

pub open spec fn spec_classify(c: char) -> CharKind {
    if c == '!' || c == '?' {
        CharKind::AsciiEnder
    } else if spec_is_sentence_ender(c) {
        CharKind::Ender
    } else if spec_is_line_break(c) {
        CharKind::LineBreak
    } else {
        match spec_bracket(c) {
            Some((k, true)) => CharKind::Open(k),
            Some((k, false)) => CharKind::Close(k),
            None => CharKind::Other,
        }
    }
}

pub proof fn lemma_classify_bound(c: char)
    ensures
        spec_classify(c) matches CharKind::Open(k) ==> k < BRACKET_KINDS,
        spec_classify(c) matches CharKind::Close(k) ==> k < BRACKET_KINDS,
{
}

pub fn classify(c: char) -> (r: CharKind)
    ensures
        r == spec_classify(c),
        r matches CharKind::Open(k) ==> k < BRACKET_KINDS,
        r matches CharKind::Close(k) ==> k < BRACKET_KINDS,
{
    if c == '!' || c == '?' {
        CharKind::AsciiEnder
    } else if super::chars::is_sentence_ender(c) {
        CharKind::Ender
    } else if c == '\n' || c == '\r' || c == '\u{2028}' || c == '\u{2029}' {
        CharKind::LineBreak
    } else {
        match bracket(c) {
            Some((k, true)) => CharKind::Open(k),
            Some((k, false)) => CharKind::Close(k),
            None => CharKind::Other,
        }
    }
}

/// ASCII or full-width digit.
pub open spec fn spec_is_digit(c: char) -> bool {
    ('0' <= c <= '9') || ('０' <= c <= '９')
}

/// Rule 9: a full-width period `．` or half-width `｡` between two digits is a decimal point or a
/// section separator, not a sentence ender.
pub open spec fn spec_is_decimal_point(t: Seq<char>, p: int) -> bool {
    &&& 0 < p
    &&& p + 1 < t.len()
    &&& (t[p] == '．' || t[p] == '｡')
    &&& spec_is_digit(t[p - 1])
    &&& spec_is_digit(t[p + 1])
}

pub fn is_decimal_point(t: &[char], p: usize) -> (r: bool)
    requires
        p < t.len(),
    ensures
        r == spec_is_decimal_point(t@, p as int),
{
    if p == 0 || p + 1 >= t.len() || !(t[p] == '．' || t[p] == '｡') {
        return false;
    }
    let a = t[p - 1];
    let b = t[p + 1];
    (('0' <= a && a <= '9') || ('０' <= a && a <= '９')) && (('0' <= b && b <= '9') || ('０' <= b
        && b <= '９'))
}

/// The end of the run of ASCII `!` `?` that contains position `p`.
pub open spec fn ascii_run_end(t: Seq<char>, p: int) -> int
    decreases t.len() - p,
{
    if 0 <= p < t.len() && (t[p] == '!' || t[p] == '?') {
        ascii_run_end(t, p + 1)
    } else {
        p
    }
}

/// The character at `q`, if there is one.
pub open spec fn char_at(t: Seq<char>, q: int) -> Option<char> {
    if 0 <= q < t.len() {
        Some(t[q])
    } else {
        None
    }
}

/// A line break that counts as one (the `\r` of `\r\n` does not; the `\n` does).
pub open spec fn is_counted_line_break(t: Seq<char>, k: int) -> bool {
    &&& 0 <= k < t.len()
    &&& spec_is_line_break(t[k])
    &&& !(t[k] == '\r' && k + 1 < t.len() && t[k + 1] == '\n')
}

pub fn counted_line_break(t: &[char], k: usize) -> (r: bool)
    requires
        k < t.len(),
    ensures
        r == is_counted_line_break(t@, k as int),
{
    let c = t[k];
    (c == '\n' || c == '\r' || c == '\u{2028}' || c == '\u{2029}') && !(c == '\r' && k + 1
        < t.len() && t[k + 1] == '\n')
}

} // verus!
