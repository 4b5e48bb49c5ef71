//! Fixed-size records laid out in the sections.

use vstd::prelude::*;

verus! {

/// One element of GRAMMAR (6 bytes): indexes into the string tables.
#[derive(Clone, Copy, Debug, PartialEq, Eq, Hash, PartialOrd, Ord)]
pub struct GrammarRecord {
    pub pos_id: u16,
    pub conj_type_id: u16,
    pub conj_form_id: u16,
}

/// One element of ENTRIES (6 bytes). The top bit of `left_and_last` marks the last entry of a
/// group (the entries that share a surface).
#[derive(Clone, Copy, Debug, PartialEq, Eq)]
pub struct EntryRecord {
    pub left_and_last: u16,
    pub right_id: u16,
    pub cost: i16,
}

/// The top bit of `left_and_last`: last entry of its group.
pub const LAST_IN_GROUP: u16 = 0x8000;
/// Limit (exclusive) of left context ids: 15 bits, the top bit marks the group end.
pub const LEFT_ID_LIMIT: usize = 0x8000;

impl EntryRecord {
    /// The left context id (the low 15 bits).
    pub fn left_id(&self) -> (r: u16)
        ensures
            r == self.left_and_last % 0x8000,
    {
        let x = self.left_and_last;
        let r = x & !LAST_IN_GROUP;
        assert(x & !0x8000u16 == x % 0x8000) by (bit_vector);
        r
    }

    /// Whether this is the last entry of its group (the top bit).
    pub fn is_last(&self) -> (r: bool)
        ensures
            r == (self.left_and_last >= 0x8000),
    {
        let x = self.left_and_last;
        assert((x & 0x8000u16 != 0) == (x >= 0x8000)) by (bit_vector);
        x & LAST_IN_GROUP != 0
    }
}

/// One element of CHAR_CATEGORIES (a char.def category, 16 bytes).
#[derive(Clone, Copy, Debug)]
pub struct CharCategoryRecord {
    /// Index into CATEGORY_NAMES
    pub name_id: u32,
    /// 1: start unknown-word processing even when known words exist
    pub invoke: u8,
    /// 1: group characters of the same category
    pub group: u8,
    pub _pad0: u16,
    /// Most characters to group (0: no limit)
    pub length: u32,
    pub _pad1: u32,
}

/// One element of CHAR_RANGES (a char.def range, 16 bytes).
#[derive(Clone, Copy, Debug)]
pub struct CharRangeRecord {
    /// First code point of the range
    pub start: u32,
    /// Last code point of the range (included)
    pub end: u32,
    /// Index into CATEGORY_NAMES
    pub category_name_id: u32,
    pub _pad: u32,
}

/// One element of UNK_BUCKETS (the unknown-word templates of a character type, 8 bytes).
#[derive(Clone, Copy, Debug)]
pub struct UnkBucket {
    pub template_start: u32,
    pub template_count: u16,
    pub invoke: u8,
    pub _pad: u8,
}

/// One element of UNK_TEMPLATES (one unk.def line, 12 bytes).
#[derive(Clone, Copy, Debug)]
pub struct UnkTemplate {
    /// Index into POS_STRINGS
    pub pos_id: u32,
    pub left_id: u16,
    pub right_id: u16,
    pub cost: i16,
    pub _pad: u16,
}

} // verus!
