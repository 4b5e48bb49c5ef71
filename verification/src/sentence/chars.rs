//! Character classes used by the sentence splitter and the exception table.

use vstd::prelude::*;

verus! {

/// The sentence enders of rule 1: `。！？!?‼⁇⁈⁉．｡`.
pub open spec fn spec_is_sentence_ender(c: char) -> bool {
    c == '。' || c == '！' || c == '？' || c == '!' || c == '?' || c == '‼' || c == '⁇'
        || c == '⁈' || c == '⁉' || c == '．' || c == '｡'
}

/// Whether `c` is a sentence ender (rule 1). Context rules (ASCII `!` `?` before
/// alphanumerics, periods between digits) are not applied here.
pub fn is_sentence_ender(c: char) -> (r: bool)
    ensures
        r == spec_is_sentence_ender(c),
{
    c == '。' || c == '！' || c == '？' || c == '!' || c == '?' || c == '‼' || c == '⁇'
        || c == '⁈' || c == '⁉' || c == '．' || c == '｡'
}

/// Rank of a folded sentence ender, in code point order.
pub open spec fn spec_ender_rank(c: char) -> Option<u64> {
    if c == '!' {
        Some(0)
    } else if c == '?' {
        Some(1)
    } else if c == '‼' {
        Some(2)
    } else if c == '⁇' {
        Some(3)
    } else if c == '⁈' {
        Some(4)
    } else if c == '⁉' {
        Some(5)
    } else if c == '。' {
        Some(6)
    } else if c == '．' {
        Some(7)
    } else if c == '｡' {
        Some(8)
    } else {
        None
    }
}

/// Rank of a folded sentence ender (after [`fold_width`]) that keeps code point order;
/// `None` for other characters.
pub fn ender_rank(c: char) -> (r: Option<u64>)
    ensures
        r == spec_ender_rank(c),
{
    if c == '!' {
        Some(0)
    } else if c == '?' {
        Some(1)
    } else if c == '‼' {
        Some(2)
    } else if c == '⁇' {
        Some(3)
    } else if c == '⁈' {
        Some(4)
    } else if c == '⁉' {
        Some(5)
    } else if c == '。' {
        Some(6)
    } else if c == '．' {
        Some(7)
    } else if c == '｡' {
        Some(8)
    } else {
        None
    }
}

/// Width folding: full-width ASCII forms U+FF01..U+FF5E become U+0021..U+007E,
/// except the full-width period `．`, which stays a sentence ender.
pub open spec fn spec_fold_width(c: char) -> char {
    if 0xFF01 <= (c as u32) <= 0xFF5E && c != '．' {
        ((c as u32) - 0xFEE0) as char
    } else {
        c
    }
}

/// Folds full-width alphanumerics and symbols (U+FF01..U+FF5E) to their ASCII forms.
/// Case is kept. The full-width period `．` is not folded (`.` is not a sentence ender).
pub fn fold_width(c: char) -> (r: char)
    ensures
        r == spec_fold_width(c),
{
    let cp = c as u32;
    if 0xFF01 <= cp && cp <= 0xFF5E && c != '．' {
        let b = (cp - 0xFEE0) as u8;
        let r = b as char;
        assert(r as u32 == cp - 0xFEE0);
        r
    } else {
        c
    }
}

/// The script of a character, which decides the left boundary of an exception word.
#[derive(Debug, Clone, Copy, PartialEq, Eq, Structural)]
pub enum Script {
    Hiragana,
    Katakana,
    Kanji,
    /// ASCII letters and digits (full-width ones are folded first)
    Alphanumeric,
    Other,
}

pub open spec fn spec_is_ascii_alphanumeric(c: char) -> bool {
    ('0' <= c <= '9') || ('a' <= c <= 'z') || ('A' <= c <= 'Z')
}

pub open spec fn spec_script_of_folded(c: char) -> Script {
    let u = c as u32;
    if spec_is_ascii_alphanumeric(c) {
        Script::Alphanumeric
    } else if (0x3041 <= u <= 0x3096) || (0x309D <= u <= 0x309F) {
        Script::Hiragana
    } else if (0x30A1 <= u <= 0x30FA) || (0x30FC <= u <= 0x30FF) || (0x31F0 <= u <= 0x31FF)
        || (0xFF66 <= u <= 0xFF9F) {
        Script::Katakana
    } else if c == '々' || c == '〆' || c == '〇' || (0x3400 <= u <= 0x4DBF) || (0x4E00 <= u
        <= 0x9FFF) || (0xF900 <= u <= 0xFAFF) || (0x20000 <= u <= 0x3FFFF) {
        Script::Kanji
    } else {
        Script::Other
    }
}

/// Script of a character after width folding.
pub open spec fn spec_script(c: char) -> Script {
    spec_script_of_folded(spec_fold_width(c))
}

pub fn is_ascii_alphanumeric(c: char) -> (r: bool)
    ensures
        r == spec_is_ascii_alphanumeric(c),
{
    ('0' <= c && c <= '9') || ('a' <= c && c <= 'z') || ('A' <= c && c <= 'Z')
}

/// The script of a character (full-width alphanumerics count as alphanumerics).
pub fn script(c: char) -> (r: Script)
    ensures
        r == spec_script(c),
{
    let c = fold_width(c);
    let u = c as u32;
    if is_ascii_alphanumeric(c) {
        Script::Alphanumeric
    } else if (0x3041 <= u && u <= 0x3096) || (0x309D <= u && u <= 0x309F) {
        Script::Hiragana
    } else if (0x30A1 <= u && u <= 0x30FA) || (0x30FC <= u && u <= 0x30FF) || (0x31F0 <= u && u
        <= 0x31FF) || (0xFF66 <= u && u <= 0xFF9F) {
        Script::Katakana
    } else if c == '々' || c == '〆' || c == '〇' || (0x3400 <= u && u <= 0x4DBF) || (0x4E00 <= u
        && u <= 0x9FFF) || (0xF900 <= u && u <= 0xFAFF) || (0x20000 <= u && u <= 0x3FFFF) {
        Script::Kanji
    } else {
        Script::Other
    }
}

/// Unicode `White_Space` characters (what `char::is_whitespace` accepts).
pub open spec fn spec_is_whitespace(c: char) -> bool {
    let u = c as u32;
    (0x09 <= u <= 0x0D) || u == 0x20 || u == 0x85 || u == 0xA0 || u == 0x1680 || (0x2000 <= u
        <= 0x200A) || u == 0x2028 || u == 0x2029 || u == 0x202F || u == 0x205F || u == 0x3000
}

/// Whether `c` has the Unicode `White_Space` property.
pub fn is_whitespace(c: char) -> (r: bool)
    ensures
        r == spec_is_whitespace(c),
{
    let u = c as u32;
    (0x09 <= u && u <= 0x0D) || u == 0x20 || u == 0x85 || u == 0xA0 || u == 0x1680 || (0x2000
        <= u && u <= 0x200A) || u == 0x2028 || u == 0x2029 || u == 0x202F || u == 0x205F || u
        == 0x3000
}

} // verus!
