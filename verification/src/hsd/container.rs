//! The container: a 64-byte header and the section table.
//!
//! | offset | type | content |
//! | --- | --- | --- |
//! | 0 | [u8; 8] | magic `HSMDICT\0` |
//! | 8 | u32 | version = 4 |
//! | 12 | u32 | flags; bit 0 = pruned final dictionary, other bits are errors |
//! | 16 | u32 | number of sections (1 to 64) |
//! | 20 | u32 | reserved (0) |
//! | 24 | u64 | file length (must match) |
//! | 32 | [u8; 32] | reserved (all 0) |
//!
//! The section table follows at 64: `count × 24` bytes of `id: u32`, `reserved: u32 (0)`,
//! `offset: u64`, `len: u64`. Sections start at multiples of 64 and overlap neither the header,
//! the table nor each other. A known id may appear once; unknown ids are checked and ignored.

use vstd::prelude::*;
use crate::le::{
    le_u32, le_u64, lemma_le_u32_at, lemma_le_u64_at, lemma_u32_bytes, lemma_u64_bytes, push_bytes, push_u32, push_u64,
    read_u32, read_u64, u32_bytes, u64_bytes,
};
use super::DictError;

verus! {

pub const VERSION: u32 = 4;
pub const HEADER_LEN: usize = 64;
pub const SECTION_ENTRY_LEN: usize = 24;
pub const MAX_SECTIONS: usize = 64;
/// Sections start at multiples of this (a cache line).
pub const SECTION_ALIGN: usize = 64;
/// Flag bit 0: the dominated entries were pruned (such a dictionary cannot be repaired or merged).
pub const FLAG_PRUNED_DOMINATED: u32 = 1;
/// Number of slots indexed by section code (the largest known code + 1).
const SECTION_SLOTS: usize = 18;

/// The magic bytes `HSMDICT\0`.
pub open spec fn magic() -> Seq<u8> {
    seq![0x48u8, 0x53, 0x4D, 0x44, 0x49, 0x43, 0x54, 0x00]
}

/// The kinds of sections.
#[derive(Clone, Copy, Debug, PartialEq, Eq, Hash, PartialOrd, Ord, Structural)]
pub enum SectionId {
    /// Metadata (`key=value` lines)
    Meta,
    /// Upper half of the two-level character code table
    CharBlocks,
    /// Lower half of the two-level character code table
    CharTables,
    /// Trie nodes
    TrieNodes,
    /// Trie tail records
    TrieTails,
    /// Entries
    Entries,
    /// Byte offset of each entry's feature record
    FeatureOffsets,
    /// Feature records
    Features,
    /// String table of parts of speech
    PosStrings,
    /// String table of conjugation types
    ConjTypeStrings,
    /// String table of conjugation forms
    ConjFormStrings,
    /// Connection matrix
    Matrix,
    /// char.def categories
    CharCategories,
    /// char.def ranges
    CharRanges,
    /// Unknown-word template ranges per character type
    UnkBuckets,
    /// Unknown-word templates
    UnkTemplates,
    /// String table of category names
    CategoryNames,
}

/// The code of a section in the table.
pub open spec fn section_code(id: SectionId) -> u32 {
    match id {
        SectionId::Meta => 1,
        SectionId::CharBlocks => 2,
        SectionId::CharTables => 3,
        SectionId::TrieNodes => 4,
        SectionId::TrieTails => 5,
        SectionId::Entries => 6,
        SectionId::FeatureOffsets => 7,
        SectionId::Features => 8,
        SectionId::PosStrings => 9,
        SectionId::ConjTypeStrings => 10,
        SectionId::ConjFormStrings => 11,
        SectionId::Matrix => 12,
        SectionId::CharCategories => 13,
        SectionId::CharRanges => 14,
        SectionId::UnkBuckets => 15,
        SectionId::UnkTemplates => 16,
        SectionId::CategoryNames => 17,
    }
}

/// The section with a code.
pub open spec fn section_of(code: u32) -> Option<SectionId> {
    if code == 1 {
        Some(SectionId::Meta)
    } else if code == 2 {
        Some(SectionId::CharBlocks)
    } else if code == 3 {
        Some(SectionId::CharTables)
    } else if code == 4 {
        Some(SectionId::TrieNodes)
    } else if code == 5 {
        Some(SectionId::TrieTails)
    } else if code == 6 {
        Some(SectionId::Entries)
    } else if code == 7 {
        Some(SectionId::FeatureOffsets)
    } else if code == 8 {
        Some(SectionId::Features)
    } else if code == 9 {
        Some(SectionId::PosStrings)
    } else if code == 10 {
        Some(SectionId::ConjTypeStrings)
    } else if code == 11 {
        Some(SectionId::ConjFormStrings)
    } else if code == 12 {
        Some(SectionId::Matrix)
    } else if code == 13 {
        Some(SectionId::CharCategories)
    } else if code == 14 {
        Some(SectionId::CharRanges)
    } else if code == 15 {
        Some(SectionId::UnkBuckets)
    } else if code == 16 {
        Some(SectionId::UnkTemplates)
    } else if code == 17 {
        Some(SectionId::CategoryNames)
    } else {
        None
    }
}

/// Sections that may be missing (read as empty).
pub open spec fn is_optional_section(id: SectionId) -> bool {
    id == SectionId::TrieTails
}

pub proof fn lemma_section_code(id: SectionId)
    ensures
        1 <= section_code(id) <= 17,
        section_of(section_code(id)) == Some(id),
{
}

impl SectionId {
    /// The code of the section in the table.
    pub fn code(self) -> (r: u32)
        ensures
            r == section_code(self),
    {
        match self {
            SectionId::Meta => 1,
            SectionId::CharBlocks => 2,
            SectionId::CharTables => 3,
            SectionId::TrieNodes => 4,
            SectionId::TrieTails => 5,
            SectionId::Entries => 6,
            SectionId::FeatureOffsets => 7,
            SectionId::Features => 8,
            SectionId::PosStrings => 9,
            SectionId::ConjTypeStrings => 10,
            SectionId::ConjFormStrings => 11,
            SectionId::Matrix => 12,
            SectionId::CharCategories => 13,
            SectionId::CharRanges => 14,
            SectionId::UnkBuckets => 15,
            SectionId::UnkTemplates => 16,
            SectionId::CategoryNames => 17,
        }
    }

    /// Every section, in code order.
    pub fn all() -> (r: Vec<SectionId>)
        ensures
            r@.len() == 17,
            forall|i: int| 0 <= i < 17 ==> section_code(#[trigger] r@[i]) == i + 1,
    {
        let mut v: Vec<SectionId> = Vec::new();
        let mut c: u32 = 1;
        while c <= 17
            invariant
                1 <= c <= 18,
                v@.len() == c - 1,
                forall|i: int| 0 <= i < v@.len() ==> section_code(#[trigger] v@[i]) == i + 1,
            decreases 18 - c,
        {
            match SectionId::from_u32(c) {
                Some(s) => v.push(s),
                None => {},
            }
            c = c + 1;
        }
        v
    }

    /// The section with a code (`None` for unknown codes).
    pub fn from_u32(id: u32) -> (r: Option<SectionId>)
        ensures
            r == section_of(id),
            r matches Some(s) ==> section_code(s) == id,
            r is Some <==> 1 <= id <= 17,
    {
        if id == 1 {
            Some(SectionId::Meta)
        } else if id == 2 {
            Some(SectionId::CharBlocks)
        } else if id == 3 {
            Some(SectionId::CharTables)
        } else if id == 4 {
            Some(SectionId::TrieNodes)
        } else if id == 5 {
            Some(SectionId::TrieTails)
        } else if id == 6 {
            Some(SectionId::Entries)
        } else if id == 7 {
            Some(SectionId::FeatureOffsets)
        } else if id == 8 {
            Some(SectionId::Features)
        } else if id == 9 {
            Some(SectionId::PosStrings)
        } else if id == 10 {
            Some(SectionId::ConjTypeStrings)
        } else if id == 11 {
            Some(SectionId::ConjFormStrings)
        } else if id == 12 {
            Some(SectionId::Matrix)
        } else if id == 13 {
            Some(SectionId::CharCategories)
        } else if id == 14 {
            Some(SectionId::CharRanges)
        } else if id == 15 {
            Some(SectionId::UnkBuckets)
        } else if id == 16 {
            Some(SectionId::UnkTemplates)
        } else if id == 17 {
            Some(SectionId::CategoryNames)
        } else {
            None
        }
    }

    /// The name of the section in messages.
    pub fn name(self) -> (r: &'static str)
        ensures
            r@ == section_name(self),
    {
        match self {
            SectionId::Meta => "META",
            SectionId::CharBlocks => "CHAR_BLOCKS",
            SectionId::CharTables => "CHAR_TABLES",
            SectionId::TrieNodes => "TRIE_NODES",
            SectionId::TrieTails => "TRIE_TAILS",
            SectionId::Entries => "ENTRIES",
            SectionId::FeatureOffsets => "FEATURE_OFFSETS",
            SectionId::Features => "FEATURES",
            SectionId::PosStrings => "POS_STRINGS",
            SectionId::ConjTypeStrings => "CONJ_TYPE_STRINGS",
            SectionId::ConjFormStrings => "CONJ_FORM_STRINGS",
            SectionId::Matrix => "MATRIX",
            SectionId::CharCategories => "CHAR_CATEGORIES",
            SectionId::CharRanges => "CHAR_RANGES",
            SectionId::UnkBuckets => "UNK_BUCKETS",
            SectionId::UnkTemplates => "UNK_TEMPLATES",
            SectionId::CategoryNames => "CATEGORY_NAMES",
        }
    }

    fn is_optional(self) -> (r: bool)
        ensures
            r == is_optional_section(self),
    {
        match self {
            SectionId::TrieTails => true,
            _ => false,
        }
    }
}

pub open spec fn section_name(id: SectionId) -> Seq<char> {
    match id {
        SectionId::Meta => "META"@,
        SectionId::CharBlocks => "CHAR_BLOCKS"@,
        SectionId::CharTables => "CHAR_TABLES"@,
        SectionId::TrieNodes => "TRIE_NODES"@,
        SectionId::TrieTails => "TRIE_TAILS"@,
        SectionId::Entries => "ENTRIES"@,
        SectionId::FeatureOffsets => "FEATURE_OFFSETS"@,
        SectionId::Features => "FEATURES"@,
        SectionId::PosStrings => "POS_STRINGS"@,
        SectionId::ConjTypeStrings => "CONJ_TYPE_STRINGS"@,
        SectionId::ConjFormStrings => "CONJ_FORM_STRINGS"@,
        SectionId::Matrix => "MATRIX"@,
        SectionId::CharCategories => "CHAR_CATEGORIES"@,
        SectionId::CharRanges => "CHAR_RANGES"@,
        SectionId::UnkBuckets => "UNK_BUCKETS"@,
        SectionId::UnkTemplates => "UNK_TEMPLATES"@,
        SectionId::CategoryNames => "CATEGORY_NAMES"@,
    }
}

/// Where a section lies in the file.
#[derive(Clone, Copy, Debug, PartialEq, Eq, Structural)]
pub struct SectionRange {
    pub offset: usize,
    pub len: usize,
}

impl SectionRange {
    pub fn end(&self) -> (r: usize)
        requires
            self.offset + self.len <= usize::MAX,
        ensures
            r == self.offset + self.len,
    {
        self.offset + self.len
    }
}

/// A checked header: the flags, the range of each known section, and how many unknown ones were
/// skipped.
#[derive(Debug)]
pub struct Layout {
    pub flags: u32,
    /// The range of each section, indexed by its code (`None` when missing)
    pub sections: Vec<Option<SectionRange>>,
    pub unknown_sections: usize,
}

impl Layout {
    /// The slots are there for every section code.
    pub closed spec fn wf(&self) -> bool {
        self.sections@.len() == SECTION_SLOTS
    }

    /// The range of section `id`, if the table has it.
    pub closed spec fn slot(&self, id: SectionId) -> Option<SectionRange> {
        self.sections@[section_code(id) as int]
    }

    /// The range of a section; an empty range at 0 for a missing optional one.
    pub fn get(&self, id: SectionId) -> (r: SectionRange)
        requires
            self.wf(),
        ensures
            r == match self.slot(id) {
                Some(s) => s,
                None => SectionRange { offset: 0, len: 0 },
            },
    {
        match self.sections[id.code() as usize] {
            Some(s) => s,
            None => SectionRange { offset: 0, len: 0 },
        }
    }

    /// The sections present, in code order.
    pub fn sections(&self) -> (r: Vec<(SectionId, SectionRange)>)
        requires
            self.wf(),
        ensures
            forall|i: int| 0 <= i < r@.len() ==> self.slot(#[trigger] r@[i].0) == Some(r@[i].1),
            forall|i: int, j: int| 0 <= i < j < r@.len() ==> section_code(r@[i].0) < section_code(r@[j].0),
            forall|id: SectionId| #[trigger] self.slot(id) is Some ==> exists|i: int| 0 <= i < r@.len() && r@[i].0 == id,
    {
        let all = SectionId::all();
        let mut r: Vec<(SectionId, SectionRange)> = Vec::new();
        let mut i: usize = 0;
        while i < all.len()
            invariant
                self.wf(),
                all@.len() == 17,
                forall|k: int| 0 <= k < 17 ==> section_code(#[trigger] all@[k]) == k + 1,
                i <= 17,
                forall|k: int| 0 <= k < r@.len() ==> self.slot(#[trigger] r@[k].0) == Some(r@[k].1),
                forall|k: int| 0 <= k < r@.len() ==> section_code(#[trigger] r@[k].0) <= i,
                forall|k: int, j: int| 0 <= k < j < r@.len() ==> section_code(r@[k].0) < section_code(r@[j].0),
                forall|id: SectionId| #[trigger] self.slot(id) is Some && section_code(id) <= i ==> exists|k: int| 0 <= k < r@.len() && r@[k].0 == id,
            decreases 17 - i,
        {
            let ghost r_old = r@;
            let id = all[i];
            if let Some(range) = self.sections[id.code() as usize] {
                r.push((id, range));
                proof {
                    assert(r@[r@.len() - 1].0 == id);
                }
            }
            proof {
                assert forall|x: SectionId| #[trigger] self.slot(x) is Some && section_code(x) <= i + 1 implies exists|k: int| 0 <= k < r@.len() && r@[k].0 == x by {
                    lemma_section_code(x);
                    lemma_section_code(id);
                    if section_code(x) == i + 1 {
                        assert(section_of(section_code(x)) == section_of(section_code(id)));
                        assert(r@[r@.len() - 1].0 == x);
                    } else {
                        let k = choose|k: int| 0 <= k < r_old.len() && r_old[k].0 == x;
                        assert(r@[k] == r_old[k]);
                    }
                }
            }
            i = i + 1;
        }
        r
    }
}

pub open spec fn count_of(b: Seq<u8>) -> int {
    le_u32(b, 16)
}

pub open spec fn spec_table_end(b: Seq<u8>) -> int {
    64 + 24 * count_of(b)
}

pub open spec fn entry_at(i: int) -> int {
    64 + 24 * i
}

pub open spec fn entry_id(b: Seq<u8>, i: int) -> u32 {
    le_u32(b, entry_at(i)) as u32
}

pub open spec fn entry_offset(b: Seq<u8>, i: int) -> int {
    le_u64(b, entry_at(i) + 8)
}

pub open spec fn entry_len(b: Seq<u8>, i: int) -> int {
    le_u64(b, entry_at(i) + 16)
}

/// Entry `i` of the table is well formed: reserved zero, within the file, aligned, after the
/// table.
pub open spec fn entry_ok(b: Seq<u8>, i: int) -> bool {
    &&& le_u32(b, entry_at(i) + 4) == 0
    &&& entry_offset(b, i) + entry_len(b, i) <= b.len()
    &&& entry_offset(b, i) % 64 == 0
    &&& entry_offset(b, i) >= spec_table_end(b)
}

/// The last entry before `k` with code `c` (-1 if none).
pub open spec fn find_entry(b: Seq<u8>, c: u32, k: int) -> int
    decreases k,
{
    if k <= 0 {
        -1
    } else if entry_id(b, k - 1) == c {
        k - 1
    } else {
        find_entry(b, c, k - 1)
    }
}

/// Number of entries before `k` with an unknown code.
pub open spec fn unknown_upto(b: Seq<u8>, k: int) -> nat
    decreases k,
{
    if k <= 0 {
        0
    } else {
        unknown_upto(b, k - 1) + if section_of(entry_id(b, k - 1)) is None {
            1nat
        } else {
            0nat
        }
    }
}

/// The range of section `id` in the table of `b`.
pub open spec fn spec_slot(b: Seq<u8>, id: SectionId) -> Option<SectionRange> {
    let i = find_entry(b, section_code(id), count_of(b));
    if i >= 0 {
        Some(SectionRange { offset: entry_offset(b, i) as usize, len: entry_len(b, i) as usize })
    } else {
        None
    }
}

/// Two entries do not overlap.
pub open spec fn disjoint(b: Seq<u8>, i: int, j: int) -> bool {
    entry_offset(b, i) + entry_len(b, i) <= entry_offset(b, j) || entry_offset(b, j) + entry_len(b, j)
        <= entry_offset(b, i)
}

/// The header and the table are well formed.
pub open spec fn container_ok(b: Seq<u8>) -> bool {
    &&& b.len() >= 64
    &&& b.subrange(0, 8) == magic()
    &&& le_u32(b, 8) == VERSION
    &&& le_u32(b, 12) <= 1
    &&& 1 <= count_of(b) <= 64
    &&& le_u32(b, 20) == 0
    &&& forall|k: int| 32 <= k < 64 ==> b[k] == 0
    &&& le_u64(b, 24) == b.len()
    &&& spec_table_end(b) <= b.len()
    &&& forall|i: int| 0 <= i < count_of(b) ==> #[trigger] entry_ok(b, i)
    &&& forall|i: int, j: int|
        0 <= i < j < count_of(b) && entry_id(b, i) == entry_id(b, j) ==> section_of(entry_id(b, i)) is None
    &&& forall|i: int, j: int| 0 <= i < j < count_of(b) ==> #[trigger] disjoint(b, i, j)
    &&& forall|id: SectionId| !is_optional_section(id) ==> #[trigger] find_entry(b, section_code(id), count_of(b)) >= 0
}

/// Not a dictionary: too short for the magic bytes, or other bytes there.
pub open spec fn not_hsd(b: Seq<u8>) -> bool {
    b.len() < 8 || b.subrange(0, 8) != magic()
}

fn corrupt(m: &str) -> (e: DictError)
    ensures
        e is Corrupt,
{
    DictError::Corrupt(m.to_owned())
}

/// Reads the header and the section table and checks them (time linear in the number of sections
/// squared, at most 64).
pub fn parse(data: &[u8]) -> (r: Result<Layout, DictError>)
    ensures
        r matches Err(DictError::NotHsd) <==> not_hsd(data@),
        (r matches Err(DictError::UnsupportedVersion(_))) <==> !not_hsd(data@) && data@.len() >= 12 && le_u32(data@, 8) != VERSION,
        r matches Err(DictError::UnsupportedVersion(v)) ==> v == le_u32(data@, 8),
        r is Ok <==> container_ok(data@),
        r matches Ok(l) ==> l.wf() && l.flags == le_u32(data@, 12) && l.unknown_sections == unknown_upto(data@, count_of(data@))
            && forall|id: SectionId| #[trigger] l.slot(id) == spec_slot(data@, id),
        r matches Err(e) ==> (e is NotHsd || e is UnsupportedVersion || e is Corrupt),
{
    let ghost b = data@;
    let n = data.len();
    let good_magic = n >= 8 && data[0] == 0x48 && data[1] == 0x53 && data[2] == 0x4D && data[3] == 0x44 && data[4] == 0x49 && data[5] == 0x43 && data[6] == 0x54 && data[7] == 0x00;
    proof {
        if n >= 8 {
            assert(good_magic == (b.subrange(0, 8) =~= magic()));
        }
    }
    if !good_magic {
        return Err(DictError::NotHsd);
    }
    if n < 12 {
        return Err(corrupt("file is shorter than the header"));
    }
    let version = read_u32(data, 8);
    if version != VERSION {
        return Err(DictError::UnsupportedVersion(version));
    }
    if n < HEADER_LEN {
        return Err(corrupt("file is shorter than the 64-byte header"));
    }
    let flags = read_u32(data, 12);
    if flags > 1 {
        return Err(corrupt("unknown header flags"));
    }
    let count = read_u32(data, 16) as usize;
    if count == 0 || count > MAX_SECTIONS {
        return Err(corrupt("section count is out of range (1..=64)"));
    }
    if read_u32(data, 20) != 0 {
        return Err(corrupt("reserved header bytes are not zero"));
    }
    let mut k: usize = 32;
    while k < 64
        invariant
            !not_hsd(b),
            le_u32(b, 8) == VERSION,
            32 <= k <= 64,
            n == b.len(),
            n >= 64,
            b == data@,
            forall|j: int| 32 <= j < k ==> b[j] == 0,
        decreases 64 - k,
    {
        if data[k] != 0 {
            return Err(corrupt("reserved header bytes are not zero"));
        }
        k = k + 1;
    }
    let file_len = read_u64(data, 24);
    if file_len != n as u64 {
        return Err(corrupt("header and file disagree on the file length (truncated or appended?)"));
    }
    let table_end = HEADER_LEN + count * SECTION_ENTRY_LEN;
    if table_end > n {
        return Err(corrupt("section table runs past the end of the file"));
    }
    let mut sections: Vec<Option<SectionRange>> = Vec::new();
    while sections.len() < SECTION_SLOTS
        invariant
            sections@.len() <= SECTION_SLOTS,
            forall|j: int| 0 <= j < sections@.len() ==> sections@[j] is None,
        decreases SECTION_SLOTS - sections@.len(),
    {
        sections.push(None);
    }
    let mut unknown: usize = 0;
    let mut i: usize = 0;
    while i < count
        invariant
            !not_hsd(b),
            le_u32(b, 8) == VERSION,
            b == data@,
            n == b.len(),
            n >= 64,
            count == count_of(b),
            1 <= count <= 64,
            table_end == spec_table_end(b),
            table_end <= n,
            i <= count,
            sections@.len() == SECTION_SLOTS,
            unknown == unknown_upto(b, i as int),
            unknown <= i,
            forall|j: int| 0 <= j < i ==> #[trigger] entry_ok(b, j),
            forall|j: int, j2: int| 0 <= j < j2 < i && entry_id(b, j) == entry_id(b, j2) ==> section_of(entry_id(b, j)) is None,
            forall|c: int| 0 <= c < SECTION_SLOTS ==> #[trigger] sections@[c] == slot_upto(b, c, i as int),
        decreases count - i,
    {
        let at = HEADER_LEN + i * SECTION_ENTRY_LEN;
        let id = read_u32(data, at);
        if read_u32(data, at + 4) != 0 {
            proof { lemma_bad_entry(b, i as int); }
            return Err(corrupt("reserved field of a section entry is not zero"));
        }
        let offset = read_u64(data, at + 8);
        let len = read_u64(data, at + 16);
        if offset > n as u64 || len > n as u64 - offset {
            proof { lemma_bad_entry(b, i as int); }
            return Err(corrupt("a section runs past the end of the file"));
        }
        let offset = offset as usize;
        let end = offset + len as usize;
        if offset % SECTION_ALIGN != 0 {
            proof { lemma_bad_entry(b, i as int); }
            return Err(corrupt("a section is not aligned to 64 bytes"));
        }
        if offset < table_end {
            proof { lemma_bad_entry(b, i as int); }
            return Err(corrupt("a section overlaps the header or the section table"));
        }
        proof {
            assert(id == entry_id(b, i as int));
        }
        match SectionId::from_u32(id) {
            Some(sid) => {
                let c = sid.code() as usize;
                if sections[c].is_some() {
                    proof {
                        lemma_slot_upto_found(b, c as int, i as int);
                        let j = find_entry(b, c as u32, i as int);
                        lemma_duplicate(b, j, i as int);
                    }
                    return Err(corrupt("a section appears twice"));
                }
                sections.set(c, Some(SectionRange { offset, len: end - offset }));
                proof {
                    lemma_slot_upto_none(b, c as int, i as int);
                    assert forall|j: int, j2: int| 0 <= j < j2 < i + 1 && entry_id(b, j) == entry_id(b, j2) implies section_of(entry_id(b, j)) is None by {
                        if j2 == i {
                            assert(find_entry(b, c as u32, i as int) >= j);
                        }
                    }
                }
            },
            None => {
                unknown = unknown + 1;
            },
        }
        i = i + 1;
    }
    if !all_disjoint(data, count) {
        return Err(corrupt("two sections overlap"));
    }
    let all = SectionId::all();
    let mut q: usize = 0;
    while q < all.len()
        invariant
            !not_hsd(b),
            le_u32(b, 8) == VERSION,
            b == data@,
            count == count_of(b),
            all@.len() == 17,
            forall|k2: int| 0 <= k2 < 17 ==> section_code(#[trigger] all@[k2]) == k2 + 1,
            q <= 17,
            sections@.len() == SECTION_SLOTS,
            forall|c: int| 0 <= c < SECTION_SLOTS ==> #[trigger] sections@[c] == slot_upto(b, c, count as int),
            forall|id: SectionId| !is_optional_section(id) && section_code(id) <= q ==> #[trigger] find_entry(b, section_code(id), count_of(b)) >= 0,
        decreases 17 - q,
    {
        let id = all[q];
        let c = id.code() as usize;
        if !id.is_optional() && sections[c].is_none() {
            proof {
                assert(find_entry(b, section_code(id), count_of(b)) < 0);
            }
            let a = crate::text::concat("required section ", id.name());
            return Err(DictError::Corrupt(crate::text::concat(a.as_str(), " is missing")));
        }
        proof {
            assert forall|x: SectionId| !is_optional_section(x) && section_code(x) <= q + 1 implies #[trigger] find_entry(b, section_code(x), count_of(b)) >= 0 by {
                if section_code(x) == q + 1 {
                    lemma_section_code(x);
                    lemma_section_code(id);
                    assert(x == id);
                }
            }
        }
        q = q + 1;
    }
    proof {
        assert forall|id: SectionId| !is_optional_section(id) implies #[trigger] find_entry(b, section_code(id), count_of(b)) >= 0 by {
            lemma_section_code(id);
        }
    }
    let layout = Layout { flags, sections, unknown_sections: unknown };
    proof {
        assert forall|id: SectionId| #[trigger] layout.slot(id) == spec_slot(b, id) by {
            lemma_section_code(id);
            assert(layout.sections@[section_code(id) as int] == slot_upto(b, section_code(id) as int, count as int));
        }
    }
    Ok(layout)
}

/// The offset and length of entry `i`.
fn entry_range(data: &[u8], i: usize) -> (r: (u64, u64))
    requires
        i < count_of(data@),
        count_of(data@) <= 64,
        spec_table_end(data@) <= data@.len(),
    ensures
        r.0 == entry_offset(data@, i as int),
        r.1 == entry_len(data@, i as int),
{
    let at = HEADER_LEN + i * SECTION_ENTRY_LEN;
    (read_u64(data, at + 8), read_u64(data, at + 16))
}

/// No two of the first `count` entries overlap.
fn all_disjoint(data: &[u8], count: usize) -> (r: bool)
    requires
        count == count_of(data@),
        count <= 64,
        spec_table_end(data@) <= data@.len(),
        forall|j: int| 0 <= j < count ==> #[trigger] entry_ok(data@, j),
    ensures
        r == forall|i: int, j: int| 0 <= i < j < count ==> #[trigger] disjoint(data@, i, j),
{
    let n = data.len();
    let mut a: usize = 0;
    while a < count
        invariant
            n == data@.len(),
            count == count_of(data@),
            count <= 64,
            spec_table_end(data@) <= data@.len(),
            forall|j: int| 0 <= j < count ==> #[trigger] entry_ok(data@, j),
            a <= count,
            forall|x: int, y: int| 0 <= x < y < count && x < a ==> #[trigger] disjoint(data@, x, y),
        decreases count - a,
    {
        let (o1, l1) = entry_range(data, a);
        proof {
            assert(entry_ok(data@, a as int));
        }
        let mut c2 = a + 1;
        while c2 < count
            invariant
                n == data@.len(),
                count == count_of(data@),
                count <= 64,
                a < count,
                a + 1 <= c2 <= count,
                spec_table_end(data@) <= data@.len(),
                forall|j: int| 0 <= j < count ==> #[trigger] entry_ok(data@, j),
                o1 == entry_offset(data@, a as int),
                l1 == entry_len(data@, a as int),
                o1 + l1 <= data@.len(),
                forall|y: int| a < y < c2 ==> #[trigger] disjoint(data@, a as int, y),
            decreases count - c2,
        {
            let (o2, l2) = entry_range(data, c2);
            proof {
                assert(entry_ok(data@, c2 as int));
            }
            if !(o1 + l1 <= o2 || o2 + l2 <= o1) {
                proof {
                    assert(!disjoint(data@, a as int, c2 as int));
                }
                return false;
            }
            c2 = c2 + 1;
        }
        a = a + 1;
    }
    true
}

/// The slot for code `c` after the first `k` entries.
pub open spec fn slot_upto(b: Seq<u8>, c: int, k: int) -> Option<SectionRange> {
    let i = find_entry(b, c as u32, k);
    if 1 <= c <= 17 && i >= 0 {
        Some(SectionRange { offset: entry_offset(b, i) as usize, len: entry_len(b, i) as usize })
    } else {
        None
    }
}

proof fn lemma_find_entry(b: Seq<u8>, c: u32, k: int)
    ensures
        -1 <= find_entry(b, c, k) < k || (k <= 0 && find_entry(b, c, k) == -1),
        find_entry(b, c, k) >= 0 ==> entry_id(b, find_entry(b, c, k)) == c,
        find_entry(b, c, k) < 0 ==> forall|j: int| 0 <= j < k ==> entry_id(b, j) != c,
    decreases k,
{
    if k > 0 {
        lemma_find_entry(b, c, k - 1);
    }
}

proof fn lemma_slot_upto_found(b: Seq<u8>, c: int, k: int)
    requires
        1 <= c <= 17,
        slot_upto(b, c, k) is Some,
    ensures
        0 <= find_entry(b, c as u32, k) < k,
        entry_id(b, find_entry(b, c as u32, k)) == c,
{
    lemma_find_entry(b, c as u32, k);
}

proof fn lemma_slot_upto_none(b: Seq<u8>, c: int, k: int)
    requires
        1 <= c <= 17,
        slot_upto(b, c, k) is None,
        0 <= k,
    ensures
        forall|j: int| 0 <= j < k ==> entry_id(b, j) != c,
{
    lemma_find_entry(b, c as u32, k);
}

proof fn lemma_bad_entry(b: Seq<u8>, i: int)
    requires
        0 <= i < count_of(b),
        !entry_ok(b, i),
    ensures
        !container_ok(b),
{
}

proof fn lemma_duplicate(b: Seq<u8>, j: int, i: int)
    requires
        0 <= j < i < count_of(b),
        entry_id(b, j) == entry_id(b, i),
        section_of(entry_id(b, i)) is Some,
    ensures
        !container_ok(b),
{
}

/// Section start: `x` rounded up to a multiple of 64.
pub open spec fn round_up64(x: int) -> int {
    ((x + 63) / 64) * 64
}

/// Where section `i` is placed when the sections are written in order.
pub open spec fn placed(lens: Seq<int>, i: int) -> int
    decreases i,
{
    if i <= 0 {
        round_up64(64 + 24 * (lens.len() as int))
    } else {
        round_up64(placed(lens, i - 1) + lens[i - 1])
    }
}

/// The header of a file with the given flags, section count and length.
pub open spec fn header_bytes(flags: u32, count: u32, file_len: u64) -> Seq<u8> {
    magic() + u32_bytes(VERSION) + u32_bytes(flags) + u32_bytes(count) + u32_bytes(0) + u64_bytes(
        file_len,
    ) + Seq::new(32, |i: int| 0u8)
}

pub open spec fn section_lens(secs: Seq<(SectionId, &[u8])>) -> Seq<int> {
    secs.map_values(|s: (SectionId, &[u8])| s.1@.len() as int)
}

/// The section table for sections written in order.
pub open spec fn table_bytes(secs: Seq<(SectionId, &[u8])>, k: int) -> Seq<u8>
    decreases k,
{
    if k <= 0 {
        Seq::empty()
    } else {
        table_bytes(secs, k - 1) + u32_bytes(section_code(secs[k - 1].0)) + u32_bytes(0) + u64_bytes(
            placed(section_lens(secs), k - 1) as u64,
        ) + u64_bytes(secs[k - 1].1@.len() as u64)
    }
}

/// The sections, each after zeros up to its place.
pub open spec fn body_bytes(secs: Seq<(SectionId, &[u8])>, k: int) -> Seq<u8>
    decreases k,
{
    if k <= 0 {
        Seq::empty()
    } else {
        let prev_end: int = if k == 1 {
            64 + 24 * (secs.len() as int)
        } else {
            placed(section_lens(secs), k - 2) + secs[k - 2].1@.len()
        };
        body_bytes(secs, k - 1) + Seq::new((placed(section_lens(secs), k - 1) - prev_end) as nat, |i: int| 0u8)
            + secs[k - 1].1@
    }
}

/// The length of the file: the end of the last section.
pub open spec fn file_len_of(secs: Seq<(SectionId, &[u8])>) -> int {
    placed(section_lens(secs), secs.len() - 1) + secs.last().1@.len()
}

/// The bytes of a file with the sections in order.
pub open spec fn file_bytes(flags: u32, secs: Seq<(SectionId, &[u8])>) -> Seq<u8> {
    header_bytes(flags, secs.len() as u32, file_len_of(secs) as u64) + table_bytes(secs, secs.len() as int)
        + body_bytes(secs, secs.len() as int)
}

proof fn lemma_placed_mono(lens: Seq<int>, i: int)
    requires
        0 <= i <= lens.len(),
        forall|j: int| 0 <= j < lens.len() ==> lens[j] >= 0,
    ensures
        placed(lens, i) % 64 == 0,
        placed(lens, i) >= 64 + 24 * lens.len(),
        i < lens.len() ==> placed(lens, i + 1) >= placed(lens, i) + lens[i],
        placed(lens, i) < placed(lens, i) + 64,
    decreases i,
{
    if i > 0 {
        lemma_placed_mono(lens, i - 1);
    }
    let x: int = if i <= 0 { 64 + 24 * (lens.len() as int) } else { placed(lens, i - 1) + lens[i - 1] };
    assert(((x + 63) / 64) * 64 >= x && ((x + 63) / 64) * 64 % 64 == 0) by (nonlinear_arith)
        requires x >= 0;
    if i < lens.len() {
        let y = placed(lens, i) + lens[i];
        assert(((y + 63) / 64) * 64 >= y) by (nonlinear_arith)
            requires y >= 0;
    }
}

/// The facts about placement that writing needs.
pub open spec fn placement_fits(secs: Seq<(SectionId, &[u8])>) -> bool {
    &&& 1 <= secs.len() <= MAX_SECTIONS
    &&& placed(section_lens(secs), secs.len() - 1) + secs.last().1@.len() + 64 <= usize::MAX
}

proof fn lemma_placement(secs: Seq<(SectionId, &[u8])>, j: int)
    requires
        placement_fits(secs),
        0 <= j < secs.len(),
    ensures
        placed(section_lens(secs), j) % 64 == 0,
        64 + 24 * secs.len() <= placed(section_lens(secs), j),
        placed(section_lens(secs), j) + secs[j].1@.len() <= placed(section_lens(secs), secs.len() - 1) + secs.last().1@.len(),
        section_lens(secs)[j] == secs[j].1@.len(),
        j + 1 < secs.len() ==> placed(section_lens(secs), j) + secs[j].1@.len() <= placed(section_lens(secs), j + 1),
{
    let lens = section_lens(secs);
    assert forall|k: int| 0 <= k < lens.len() implies lens[k] >= 0 by {}
    lemma_placed_mono(lens, j);
    if j + 1 < secs.len() {
        lemma_placed_le(lens, j + 1, secs.len() - 1);
        lemma_placed_mono(lens, secs.len() - 1);
    }
}

/// Where each section goes.
fn place(sections: &[(SectionId, &[u8])]) -> (v: Vec<usize>)
    requires
        placement_fits(sections@),
    ensures
        v@.len() == sections@.len(),
        forall|j: int| 0 <= j < v@.len() ==> #[trigger] v@[j] == placed(section_lens(sections@), j),
{
    let ghost lens = section_lens(sections@);
    let count = sections.len();
    let mut offset = (HEADER_LEN + count * SECTION_ENTRY_LEN + 63) / 64 * 64;
    let mut v: Vec<usize> = Vec::new();
    let mut i: usize = 0;
    while i < count
        invariant
            count == sections@.len(),
            placement_fits(sections@),
            lens == section_lens(sections@),
            i <= count,
            i < count ==> offset == placed(lens, i as int),
            v@.len() == i,
            forall|j: int| 0 <= j < i ==> #[trigger] v@[j] == placed(lens, j),
        decreases count - i,
    {
        proof {
            lemma_placement(sections@, i as int);
        }
        v.push(offset);
        if i + 1 < count {
            offset = (offset + sections[i].1.len() + 63) / 64 * 64;
        }
        i = i + 1;
    }
    v
}

/// The section table.
fn section_table(sections: &[(SectionId, &[u8])], at: &Vec<usize>) -> (t: Vec<u8>)
    requires
        placement_fits(sections@),
        at@.len() == sections@.len(),
        forall|j: int| 0 <= j < at@.len() ==> #[trigger] at@[j] == placed(section_lens(sections@), j),
    ensures
        t@ == table_bytes(sections@, sections@.len() as int),
{
    let mut t: Vec<u8> = Vec::new();
    let mut i: usize = 0;
    while i < sections.len()
        invariant
            placement_fits(sections@),
            at@.len() == sections@.len(),
            forall|j: int| 0 <= j < at@.len() ==> #[trigger] at@[j] == placed(section_lens(sections@), j),
            i <= sections@.len(),
            t@ == table_bytes(sections@, i as int),
        decreases sections@.len() - i,
    {
        proof {
            lemma_placement(sections@, i as int);
        }
        let (id, body) = sections[i];
        push_u32(&mut t, id.code());
        push_u32(&mut t, 0);
        push_u64(&mut t, at[i] as u64);
        push_u64(&mut t, body.len() as u64);
        proof {
            assert(t@ =~= table_bytes(sections@, i + 1));
        }
        i = i + 1;
    }
    t
}

/// Appends each section after zeros up to its place.
fn push_sections(out: &mut Vec<u8>, sections: &[(SectionId, &[u8])], at: &Vec<usize>)
    requires
        placement_fits(sections@),
        at@.len() == sections@.len(),
        forall|j: int| 0 <= j < at@.len() ==> #[trigger] at@[j] == placed(section_lens(sections@), j),
    ensures
        final(out)@ == old(out)@ + body_bytes(sections@, sections@.len() as int),
{
    let ghost start = out@;
    let count = sections.len();
    let mut written = HEADER_LEN + count * SECTION_ENTRY_LEN;
    let mut k: usize = 0;
    while k < count
        invariant
            count == sections@.len(),
            placement_fits(sections@),
            at@.len() == count,
            forall|j: int| 0 <= j < at@.len() ==> #[trigger] at@[j] == placed(section_lens(sections@), j),
            k <= count,
            written == if k == 0 {
                64 + 24 * count
            } else {
                placed(section_lens(sections@), k - 1) + sections@[k - 1].1@.len()
            },
            written <= usize::MAX,
            out@ == start + body_bytes(sections@, k as int),
        decreases count - k,
    {
        let a = at[k];
        let body = sections[k].1;
        proof {
            lemma_placement(sections@, k as int);
            if k > 0 {
                lemma_placement(sections@, k - 1);
            }
        }
        let ghost before = out@;
        let mut p = written;
        while p < a
            invariant
                written <= p <= a,
                out@ == before + Seq::new((p - written) as nat, |i: int| 0u8),
            decreases a - p,
        {
            out.push(0);
            proof {
                assert(out@ =~= before + Seq::new((p + 1 - written) as nat, |i: int| 0u8));
            }
            p = p + 1;
        }
        push_bytes(out, body);
        proof {
            assert(out@ =~= start + body_bytes(sections@, k + 1));
        }
        written = a + body.len();
        k = k + 1;
    }
}

/// Lays out the sections in the given order, each on a 64-byte boundary, and returns the bytes of
/// the file (no padding after the last section).
pub fn write(flags: u32, sections: &[(SectionId, &[u8])]) -> (r: Vec<u8>)
    requires
        placement_fits(sections@),
        flags <= 1,
    ensures
        r@ == file_bytes(flags, sections@),
{
    let count = sections.len();
    let at = place(sections);
    let table = section_table(sections, &at);
    proof {
        lemma_placement(sections@, count - 1);
    }
    let file_len = at[count - 1] + sections[count - 1].1.len();
    let mut out: Vec<u8> = Vec::new();
    out.push(0x48);
    out.push(0x53);
    out.push(0x4D);
    out.push(0x44);
    out.push(0x49);
    out.push(0x43);
    out.push(0x54);
    out.push(0x00);
    push_u32(&mut out, VERSION);
    push_u32(&mut out, flags);
    push_u32(&mut out, count as u32);
    push_u32(&mut out, 0);
    push_u64(&mut out, file_len as u64);
    let ghost head = out@;
    let mut z: usize = 0;
    while z < 32
        invariant
            z <= 32,
            out@ == head + Seq::new(z as nat, |i: int| 0u8),
        decreases 32 - z,
    {
        out.push(0);
        proof {
            assert(out@ =~= head + Seq::new((z + 1) as nat, |i: int| 0u8));
        }
        z = z + 1;
    }
    proof {
        assert(out@ =~= header_bytes(flags, count as u32, file_len_of(sections@) as u64));
    }
    push_bytes(&mut out, table.as_slice());
    push_sections(&mut out, sections, &at);
    out
}

proof fn lemma_placed_le(lens: Seq<int>, i: int, j: int)
    requires
        0 <= i <= j <= lens.len(),
        forall|k: int| 0 <= k < lens.len() ==> lens[k] >= 0,
    ensures
        placed(lens, i) <= placed(lens, j),
    decreases j - i,
{
    if i < j {
        lemma_placed_le(lens, i, j - 1);
        lemma_placed_mono(lens, j - 1);
    }
}

/// The table entry written for section `i`.
pub open spec fn entry_bytes(secs: Seq<(SectionId, &[u8])>, i: int) -> Seq<u8> {
    u32_bytes(section_code(secs[i].0)) + u32_bytes(0) + u64_bytes(placed(section_lens(secs), i) as u64) + u64_bytes(
        secs[i].1@.len() as u64,
    )
}

proof fn lemma_table_bytes(secs: Seq<(SectionId, &[u8])>, k: int)
    requires
        0 <= k <= secs.len(),
    ensures
        table_bytes(secs, k).len() == 24 * k,
        forall|i: int| 0 <= i < k ==> #[trigger] table_bytes(secs, k).subrange(24 * i, 24 * i + 24) == entry_bytes(secs, i),
    decreases k,
{
    if k > 0 {
        lemma_table_bytes(secs, k - 1);
        lemma_u32_bytes(section_code(secs[k - 1].0));
        lemma_u32_bytes(0);
        lemma_u64_bytes(placed(section_lens(secs), k - 1) as u64);
        lemma_u64_bytes(secs[k - 1].1@.len() as u64);
        let t = table_bytes(secs, k);
        assert(t == table_bytes(secs, k - 1) + entry_bytes(secs, k - 1));
        assert forall|i: int| 0 <= i < k implies #[trigger] t.subrange(24 * i, 24 * i + 24) == entry_bytes(secs, i) by {
            if i < k - 1 {
                assert(t.subrange(24 * i, 24 * i + 24) =~= table_bytes(secs, k - 1).subrange(24 * i, 24 * i + 24));
            } else {
                assert(t.subrange(24 * i, 24 * i + 24) =~= entry_bytes(secs, i));
            }
        }
    }
}

proof fn lemma_body_bytes(secs: Seq<(SectionId, &[u8])>, k: int)
    requires
        placement_fits(secs),
        1 <= k <= secs.len(),
    ensures
        body_bytes(secs, k).len() == placed(section_lens(secs), k - 1) + secs[k - 1].1@.len() - (64 + 24 * secs.len()),
        forall|j: int|
            0 <= j < k ==> #[trigger] body_bytes(secs, k).subrange(
                placed(section_lens(secs), j) - (64 + 24 * secs.len()),
                placed(section_lens(secs), j) - (64 + 24 * secs.len()) + secs[j].1@.len(),
            ) == secs[j].1@,
    decreases k,
{
    let t: int = 64 + 24 * (secs.len() as int);
    let lens = section_lens(secs);
    lemma_placement(secs, k - 1);
    if k > 1 {
        lemma_body_bytes(secs, k - 1);
        lemma_placement(secs, k - 2);
    }
    let prev = body_bytes(secs, k - 1);
    let prev_end: int = if k == 1 { t as int } else { placed(lens, k - 2) + secs[k - 2].1@.len() };
    assert(k == 1 ==> prev.len() == 0);
    assert(prev.len() == prev_end - t);
    let gap = Seq::new((placed(lens, k - 1) - prev_end) as nat, |i: int| 0u8);
    let b = body_bytes(secs, k);
    assert(b == prev + gap + secs[k - 1].1@);
    assert forall|j: int| 0 <= j < k implies #[trigger] b.subrange(placed(lens, j) - t, placed(lens, j) - t + secs[j].1@.len())
        == secs[j].1@ by {
        if j < k - 1 {
            lemma_placement(secs, j);
            if j + 1 < k - 1 {
                lemma_placed_le(lens, j + 1, k - 2);
                lemma_placement(secs, k - 2);
            }
            assert(placed(lens, j) - t + secs[j].1@.len() <= prev.len());
            assert(b.subrange(placed(lens, j) - t, placed(lens, j) - t + secs[j].1@.len()) =~= prev.subrange(
                placed(lens, j) - t,
                placed(lens, j) - t + secs[j].1@.len(),
            ));
        } else {
            assert(b.subrange(placed(lens, j) - t, placed(lens, j) - t + secs[j].1@.len()) =~= secs[j].1@);
        }
    }
}

/// The last entry before `k` with code `c` is at `i` when `i` is the only one.
proof fn lemma_find_only_entry(b: Seq<u8>, c: u32, k: int, i: int)
    requires
        0 <= i < k,
        entry_id(b, i) == c,
        forall|j: int| 0 <= j < k && j != i ==> entry_id(b, j) != c,
    ensures
        find_entry(b, c, k) == i,
    decreases k,
{
    if k - 1 != i {
        lemma_find_only_entry(b, c, k - 1, i);
    }
}

proof fn lemma_file_layout(flags: u32, secs: Seq<(SectionId, &[u8])>)
    requires
        placement_fits(secs),
    ensures
        file_bytes(flags, secs).len() == file_len_of(secs),
        file_bytes(flags, secs) == header_bytes(flags, secs.len() as u32, file_len_of(secs) as u64) + table_bytes(
            secs,
            secs.len() as int,
        ) + body_bytes(secs, secs.len() as int),
        header_bytes(flags, secs.len() as u32, file_len_of(secs) as u64).len() == 64,
        table_bytes(secs, secs.len() as int).len() == 24 * secs.len(),
{
    lemma_table_bytes(secs, secs.len() as int);
    lemma_body_bytes(secs, secs.len() as int);
    lemma_placement(secs, secs.len() - 1);
    lemma_u32_bytes(VERSION);
    lemma_u32_bytes(flags);
    lemma_u32_bytes(secs.len() as u32);
    lemma_u32_bytes(0);
    lemma_u64_bytes(file_len_of(secs) as u64);
}

proof fn lemma_file_header(flags: u32, secs: Seq<(SectionId, &[u8])>)
    requires
        placement_fits(secs),
    ensures
        ({
            let b = file_bytes(flags, secs);
            &&& b.len() >= 64
            &&& b.subrange(0, 8) == magic()
            &&& le_u32(b, 8) == VERSION
            &&& le_u32(b, 12) == flags
            &&& count_of(b) == secs.len()
            &&& le_u32(b, 20) == 0
            &&& forall|k: int| 32 <= k < 64 ==> b[k] == 0
            &&& le_u64(b, 24) == b.len()
        }),
{
    let n = secs.len() as int;
    let file_len = file_len_of(secs);
    let h = header_bytes(flags, n as u32, file_len as u64);
    let b = file_bytes(flags, secs);
    lemma_file_layout(flags, secs);
    lemma_placement(secs, n - 1);
    assert(b.subrange(0, 64) =~= h);
    assert(h.subrange(0, 8) =~= magic());
    assert(h.subrange(8, 12) =~= u32_bytes(VERSION));
    assert(h.subrange(12, 16) =~= u32_bytes(flags));
    assert(h.subrange(16, 20) =~= u32_bytes(n as u32));
    assert(h.subrange(20, 24) =~= u32_bytes(0));
    assert(h.subrange(24, 32) =~= u64_bytes(file_len as u64));
    assert(b.subrange(0, 8) =~= magic());
    assert(b.subrange(8, 12) =~= u32_bytes(VERSION));
    lemma_le_u32_at(b, 8, VERSION);
    assert(b.subrange(12, 16) =~= u32_bytes(flags));
    lemma_le_u32_at(b, 12, flags);
    assert(b.subrange(16, 20) =~= u32_bytes(n as u32));
    lemma_le_u32_at(b, 16, n as u32);
    assert(b.subrange(20, 24) =~= u32_bytes(0));
    lemma_le_u32_at(b, 20, 0);
    assert(b.subrange(24, 32) =~= u64_bytes(file_len as u64));
    lemma_le_u64_at(b, 24, file_len as u64);
    assert forall|k: int| 32 <= k < 64 implies b[k] == 0 by {
        assert(b[k] == h[k]);
    }
}

#[verifier::rlimit(60)]
proof fn lemma_file_entry(flags: u32, secs: Seq<(SectionId, &[u8])>, i: int)
    requires
        placement_fits(secs),
        0 <= i < secs.len(),
    ensures
        entry_id(file_bytes(flags, secs), i) == section_code(secs[i].0),
        le_u32(file_bytes(flags, secs), entry_at(i) + 4) == 0,
        entry_offset(file_bytes(flags, secs), i) == placed(section_lens(secs), i),
        entry_len(file_bytes(flags, secs), i) == secs[i].1@.len(),
{
    let n = secs.len() as int;
    let lens = section_lens(secs);
    let tb = table_bytes(secs, n);
    let b = file_bytes(flags, secs);
    lemma_file_layout(flags, secs);
    lemma_table_bytes(secs, n);
    let e = entry_at(i);
    let eb = entry_bytes(secs, i);
    assert(b.subrange(e, e + 24) =~= tb.subrange(24 * i, 24 * i + 24));
    assert(tb.subrange(24 * i, 24 * i + 24) == eb);
    lemma_placement(secs, i);
    lemma_u32_bytes(section_code(secs[i].0));
    lemma_u32_bytes(0);
    lemma_u64_bytes(placed(lens, i) as u64);
    lemma_u64_bytes(secs[i].1@.len() as u64);
    assert(b.subrange(e, e + 4) =~= eb.subrange(0, 4));
    assert(eb.subrange(0, 4) =~= u32_bytes(section_code(secs[i].0)));
    lemma_le_u32_at(b, e, section_code(secs[i].0));
    assert(b.subrange(e + 4, e + 8) =~= eb.subrange(4, 8));
    assert(eb.subrange(4, 8) =~= u32_bytes(0));
    lemma_le_u32_at(b, e + 4, 0);
    assert(b.subrange(e + 8, e + 16) =~= eb.subrange(8, 16));
    assert(eb.subrange(8, 16) =~= u64_bytes(placed(lens, i) as u64));
    lemma_le_u64_at(b, e + 8, placed(lens, i) as u64);
    assert(b.subrange(e + 16, e + 24) =~= eb.subrange(16, 24));
    assert(eb.subrange(16, 24) =~= u64_bytes(secs[i].1@.len() as u64));
    lemma_le_u64_at(b, e + 16, secs[i].1@.len() as u64);
}

proof fn lemma_file_entries(flags: u32, secs: Seq<(SectionId, &[u8])>)
    requires
        placement_fits(secs),
    ensures
        forall|i: int|
            0 <= i < secs.len() ==> {
                &&& #[trigger] entry_id(file_bytes(flags, secs), i) == section_code(secs[i].0)
                &&& le_u32(file_bytes(flags, secs), entry_at(i) + 4) == 0
                &&& entry_offset(file_bytes(flags, secs), i) == placed(section_lens(secs), i)
                &&& entry_len(file_bytes(flags, secs), i) == secs[i].1@.len()
            },
{
    assert forall|i: int| 0 <= i < secs.len() implies {
        &&& #[trigger] entry_id(file_bytes(flags, secs), i) == section_code(secs[i].0)
        &&& le_u32(file_bytes(flags, secs), entry_at(i) + 4) == 0
        &&& entry_offset(file_bytes(flags, secs), i) == placed(section_lens(secs), i)
        &&& entry_len(file_bytes(flags, secs), i) == secs[i].1@.len()
    } by {
        lemma_file_entry(flags, secs, i);
    }
}

proof fn lemma_file_sections(flags: u32, secs: Seq<(SectionId, &[u8])>)
    requires
        placement_fits(secs),
    ensures
        forall|i: int|
            0 <= i < secs.len() ==> #[trigger] file_bytes(flags, secs).subrange(
                placed(section_lens(secs), i),
                placed(section_lens(secs), i) + secs[i].1@.len(),
            ) == secs[i].1@,
{
    let n = secs.len() as int;
    let lens = section_lens(secs);
    let t: int = 64 + 24 * n;
    let bb = body_bytes(secs, n);
    let b = file_bytes(flags, secs);
    lemma_file_layout(flags, secs);
    lemma_body_bytes(secs, n);
    assert forall|i: int| 0 <= i < n implies #[trigger] b.subrange(placed(lens, i), placed(lens, i) + secs[i].1@.len()) == secs[i].1@ by {
        lemma_placement(secs, i);
        assert(b.subrange(placed(lens, i), placed(lens, i) + secs[i].1@.len()) =~= bb.subrange(
            placed(lens, i) - t,
            placed(lens, i) - t + secs[i].1@.len(),
        ));
    }
}

#[verifier::rlimit(80)]
proof fn lemma_file_table_ok(flags: u32, secs: Seq<(SectionId, &[u8])>)
    requires
        placement_fits(secs),
        forall|i: int, j: int| 0 <= i < j < secs.len() ==> secs[i].0 != secs[j].0,
    ensures
        ({
            let b = file_bytes(flags, secs);
            &&& spec_table_end(b) <= b.len()
            &&& forall|i: int| 0 <= i < count_of(b) ==> #[trigger] entry_ok(b, i)
            &&& forall|i: int, j: int|
                0 <= i < j < count_of(b) && entry_id(b, i) == entry_id(b, j) ==> section_of(entry_id(b, i)) is None
            &&& forall|i: int, j: int| 0 <= i < j < count_of(b) ==> #[trigger] disjoint(b, i, j)
        }),
{
    let n = secs.len() as int;
    let lens = section_lens(secs);
    let b = file_bytes(flags, secs);
    lemma_file_layout(flags, secs);
    lemma_file_header(flags, secs);
    lemma_file_entries(flags, secs);
    lemma_placement(secs, n - 1);
    assert forall|i: int| 0 <= i < n implies #[trigger] entry_ok(b, i) by {
        assert(entry_id(b, i) == section_code(secs[i].0));
        lemma_placement(secs, i);
    }
    assert forall|i: int, j: int| 0 <= i < j < n implies #[trigger] disjoint(b, i, j) by {
        assert(entry_id(b, i) == section_code(secs[i].0));
        assert(entry_id(b, j) == section_code(secs[j].0));
        lemma_placement(secs, i);
        if i + 1 < j {
            lemma_placed_le(lens, i + 1, j);
        }
    }
    assert forall|i: int, j: int| 0 <= i < j < n && entry_id(b, i) == entry_id(b, j) implies section_of(entry_id(b, i)) is None by {
        assert(entry_id(b, i) == section_code(secs[i].0));
        assert(entry_id(b, j) == section_code(secs[j].0));
        lemma_section_code(secs[i].0);
        lemma_section_code(secs[j].0);
    }
}

proof fn lemma_file_slots(flags: u32, secs: Seq<(SectionId, &[u8])>)
    requires
        placement_fits(secs),
        forall|i: int, j: int| 0 <= i < j < secs.len() ==> secs[i].0 != secs[j].0,
    ensures
        forall|i: int| 0 <= i < secs.len() ==> #[trigger] find_entry(file_bytes(flags, secs), section_code(secs[i].0), secs.len() as int) == i,
        forall|i: int|
            0 <= i < secs.len() ==> #[trigger] spec_slot(file_bytes(flags, secs), secs[i].0) == Some(
                SectionRange { offset: placed(section_lens(secs), i) as usize, len: secs[i].1@.len() as usize },
            ),
        unknown_upto(file_bytes(flags, secs), secs.len() as int) == 0,
{
    let n = secs.len() as int;
    let lens = section_lens(secs);
    let b = file_bytes(flags, secs);
    lemma_file_header(flags, secs);
    lemma_file_entries(flags, secs);
    assert forall|i: int| 0 <= i < n implies #[trigger] find_entry(b, section_code(secs[i].0), n) == i by {
        assert forall|j: int| 0 <= j < n && j != i implies entry_id(b, j) != section_code(secs[i].0) by {
            assert(entry_id(b, j) == section_code(secs[j].0));
            lemma_section_code(secs[i].0);
            lemma_section_code(secs[j].0);
        }
        assert(entry_id(b, i) == section_code(secs[i].0));
        lemma_find_only_entry(b, section_code(secs[i].0), n, i);
    }
    assert forall|i: int| 0 <= i < n implies #[trigger] spec_slot(b, secs[i].0) == Some(
        SectionRange { offset: placed(lens, i) as usize, len: secs[i].1@.len() as usize },
    ) by {
        assert(find_entry(b, section_code(secs[i].0), n) == i);
        assert(entry_id(b, i) == section_code(secs[i].0));
    }
    assert forall|i: int| 0 <= i < n implies entry_id(b, i) == section_code(secs[i].0) by {}
    lemma_unknown_none(b, secs, n);
}

/// A file written from sections with distinct kinds, every required kind among them, passes the
/// checks of [`parse`], and each section reads back at its place with its bytes.
pub proof fn lemma_write_then_parse(flags: u32, secs: Seq<(SectionId, &[u8])>)
    requires
        placement_fits(secs),
        flags <= 1,
        forall|i: int, j: int| 0 <= i < j < secs.len() ==> secs[i].0 != secs[j].0,
        forall|id: SectionId| !is_optional_section(id) ==> exists|i: int| 0 <= i < secs.len() && secs[i].0 == id,
    ensures
        container_ok(file_bytes(flags, secs)),
        le_u32(file_bytes(flags, secs), 12) == flags,
        unknown_upto(file_bytes(flags, secs), secs.len() as int) == 0,
        forall|i: int|
            0 <= i < secs.len() ==> #[trigger] spec_slot(file_bytes(flags, secs), secs[i].0) == Some(
                SectionRange { offset: placed(section_lens(secs), i) as usize, len: secs[i].1@.len() as usize },
            ),
        forall|i: int|
            0 <= i < secs.len() ==> #[trigger] file_bytes(flags, secs).subrange(
                placed(section_lens(secs), i),
                placed(section_lens(secs), i) + secs[i].1@.len(),
            ) == secs[i].1@,
{
    let n = secs.len() as int;
    let b = file_bytes(flags, secs);
    lemma_file_header(flags, secs);
    lemma_file_table_ok(flags, secs);
    lemma_file_slots(flags, secs);
    lemma_file_sections(flags, secs);
    assert forall|id: SectionId| !is_optional_section(id) implies #[trigger] find_entry(b, section_code(id), count_of(b)) >= 0 by {
        let i = choose|i: int| 0 <= i < n && secs[i].0 == id;
        assert(find_entry(b, section_code(secs[i].0), n) == i);
    }
}

proof fn lemma_unknown_none(b: Seq<u8>, secs: Seq<(SectionId, &[u8])>, k: int)
    requires
        0 <= k <= secs.len(),
        forall|i: int| 0 <= i < secs.len() ==> #[trigger] entry_id(b, i) == section_code(secs[i].0),
    ensures
        unknown_upto(b, k) == 0,
    decreases k,
{
    if k > 0 {
        lemma_unknown_none(b, secs, k - 1);
        assert(entry_id(b, k - 1) == section_code(secs[k - 1].0));
        lemma_section_code(secs[k - 1].0);
    }
}

} // verus!
